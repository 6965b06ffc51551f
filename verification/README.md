# FileTrail

FileTrail copies the files and directories that you choose into a local Git repository, keeps them up to date, and restores them.

The library under `src/` holds its rules, each with a contract that Verus proves:

- `path`, `text`, `order`, `table`, `escape`: paths as text, characters, sorting, ordered tables, quoting.
- `config`: which sources are kept, and where in the repository they go.
- `globs`, `fingerprint`: exclusion patterns, and what tells whether two files are the same.
- `sync`, `pass`: the decisions of synchronization, and a pass over all entries.
- `repetition`: why a second pass over unchanged sources has nothing to do.
- `restore`, `restoration`: where files of the repository go on this system, and how they are brought back.
- `rehearsal`: why a dry restoration tells what a real one does.
- `state`: the synchronization history and its database.
- `git`, `commit`: what is shown and committed, and how a commit is made.
- `lifecycle`, `daemon`, `service`, `completion`, `manifest`, `commands`: everything around it.

A pass, a restoration and a commit never touch a file. They say what they want next, and go on when they are told what came of it; `exchange` holds the questions and answers. The program under `app/` asks and answers: it reads and writes files, runs Git and the database, and talks to the user.

Paths are text throughout, but for those that a scan comes upon: exclusion patterns match their bytes. A path that is not UTF-8 is refused where it would be recorded.
