# newflasher

A flasher for Sony Xperia devices in flash mode, with its logic verified
by Verus.

- `src/` is the verified library: the fastboot reply protocol and its
  numbers (`types`, `number`), the trim-area text format (`ta`), the boot
  and partition delivery descriptions read from XML events (`xml_parser`),
  the decisions taken while flashing `.sin` archives (`sins`), text helpers
  (`text`) and dumps, octal fields and no-erase marks (`utils`).
- `app/` is the program around it: the USB device (nusb), files, tar and
  gzip archives, the XML reader (xml-rs), logging and the C interface.
- `tests/` runs the library on concrete inputs.
