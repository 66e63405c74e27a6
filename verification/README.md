# dshe

Moves files and folders from one machine to another, over the local network or across the internet.

- `src/` is the library: what the tool decides, computes and tells. It is written for Verus; the
  contracts of its functions are proved.
- `app/` is the program around it: the command line, files, sockets, progress bars and the iroh
  endpoint.
- `tests/` runs the library on concrete values.

Paths are those of Unix: byte strings with `/` between their components.

## What is proved

Each module states its contracts over sequences, sets and maps. Beyond the contracts of the single
functions, the proof functions named `law_...` state what holds of several together, among them:

- a beacon reads back as the share that it announces, whatever the share is called, and the ticket
  that is built from it is one for the sender and the content that were meant (`beacon`, `ticket`);
- whatever packets come, each sender is listed once, in the order of the ids, with the description
  of its first beacon and every address it announced (`beacon`);
- a shared file lands below the destination at the place that it has below what is shared, under
  the last component of the path that was given, and different files have different names
  (`import`, `paths`);
- how many files are imported at a time, and which is done first, does not show in the collection
  (`import`);
- what follows a leading `~/` of a path follows the home directory (`paths`);
- the text of a ticket reads back as a ticket for the same content of the same sender, and is found
  again where it was printed or handed over (`ticket`, `send`, `background`);
- a complete transfer is reported exactly when a connection closes on which a request was completed
  (`provide`);
- a sender that is not to stop goes on however many receivers come one after the other, and serves
  each as it served the first (`provide`);
- an address that is written out reads back as the same address (`addr`);
- the archive of a folder is recognised and reported under the name of the folder, and a folder
  that is sent as it is stays as it is, whatever it holds (`receive`).

What the library takes from other crates is in `src/outside.rs`, with what is relied on of each.
