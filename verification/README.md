# thylacine

A snapshot-based backup tool, as a verified library with a thin program around it.

Source trees are replicated into a plain directory, the archive, which anyone can browse without
tools. Every file is identified by the SHA-256 of its bytes, so the same photo from two machines is
kept once, under whatever name; nothing is ever overwritten; and what has not changed is not read
again.

```
thylacine init   --dest <DIR>          mark a directory as an archive
thylacine index  --dest <DIR>          hash everything already in it
thylacine backup --dest <DIR> <SRC>... copy sources into the archive
thylacine help
```

## Layout

`src/` is the library. It decides everything and opens no file: where it needs to know something of
the file system, it asks. A question is a value of its own, and its answer gives the next step.

* `path`, `text`, `hash`: file paths as bytes, text, content hashes
* `cli`: what the command line asks for
* `scan`: walking a directory tree
* `config`, `archive`: what marks an archive, where a file belongs in it, and what it holds
* `store`: copying a file into the archive, under a name that is free
* `sqlite`: the SQL statements and what they do
* `cache`, `catalog`: what is known of files and contents
* `engine`, `reindex`, `run`, `stats`: rebuilding the index, and a whole backup run
* `keeping`, `course`, `reorganised`, `complete`: what holds of a run from its beginning to its end: what
  it counts, what it never copies twice, and why nothing is lost

`app/` is the program. It answers the questions from the real file system, and reports.

`tests/` runs the library on a file system in memory.

## What is proved

Every function in `src/` is verified with Verus against its contract, but for the small functions
marked `external_body`, each of which calls into `rusqlite`, `sha2` or the standard library, and
says what is believed of the call. The functions named `law_..` state what the contracts add
up to: that a walk hands out every file of a tree once, that a run removes and changes nothing in the
archive but copies that an interrupted one left behind, that it counts every item once and its numbers
add up, that no file it adds holds what another one holds (also where the cache was lost or the archive
was assembled by hand, and where it was reorganised by hand as long as the index knows every content),
that after a run without an error the content of every file that it was given is in the archive, that
an index can be rebuilt from the archive alone, that a second run opens nothing, that a cache opened
for another archive is empty.

## Names

A copy is written as `.thylacine-tmp-` and the number of the process before it is complete. Only files
of such a name are swept. Apart from the archive's own config, they are also the only ones that are not
listed as its contents. A source file that has such a name itself is archived with a part of its hash
behind it, like one whose name is taken.

The rows of the cache are kept under texts. A path that is UTF-8 stands for itself; any other one is
spelled in hexadecimal digits behind a NUL, so that no two paths share a row.

## The database

What a statement did to a database is only known where nothing else can write to it. The contracts
say so: they speak of the tables of a connection that is `exclusive`. A statement that fails has left
them as they were, or has given up the whole transaction. That holds of one that only reads, too.
What follows on an answer of the database is decided by functions that take the answer as an argument
(`cache::binding`, `RemoveStrays::after_count`, `WalkSource::after_known`, `HashSource::after_lookup`),
so it is fixed for every answer, wherever that came from. `Cache::bind_found` says what the tables hold
then.
