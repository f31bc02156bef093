# launcher

A small application launcher for Wayland and X11 with search, icons and support
for Bedrock Linux strata. Its logic is written and proved in Verus.

- `src/` is the verified library.
  - `launch`: what was typed, or an entry's command, becomes the process to start.
  - `entry`, `catalog`: desktop files become the list of applications.
  - `state`, `keys`: what is shown, selected and launched, key by key.
  - `icon`: where icons are looked for and which file is taken.
  - `xpm`, `bitmap`, `surface`: pictures become the bytes of a surface.
  - `theme`, `hex`: the theme, the files it is read from and its colours.
  - `text`, `offsets`, `numeral`, `places`: strings, byte offsets into them,
    numbers, and places in lists.
- `app/` is the program around it: files, environment, processes, the reading of
  pictures with `image`, and drawing.
- `tests/` runs the library on concrete inputs.

Type to filter, move with the arrow keys, launch with Enter, close with Esc.
A shortcut before a command names the stratum to run it in: `arch:firefox`,
`deb:apt update`, `fed:dnf upgrade`. Any other command that no application
matches runs in the shell as it is, with a colon or without.
