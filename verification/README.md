# git_future

A library for reading git repositories, verified with Verus.

`src/` holds the library: object ids and their hexadecimal form; the
grammars of commit, tag and tree bodies; loose objects and pack files with
their deltas and indexes; loose and packed refs; walking a directory tree;
comparing two trees level by level; line diffs of the files that differ; and
the cache of pack indexes that a repository handle and its clones share.
Each public function states in its contract what it returns, over
mathematical models of its inputs, as far as its inputs decide it: of a
line diff the contract states which texts it compares, not which operations
a time-limited diff algorithm chose, and of the shared cache it states
only that a cache refused is handed back unchanged, since other handles may
have filled it. The
`law_*` proof functions state properties that span functions, such as that
an encoded id decodes back to itself, that a tree body parses into the
entries it stores, that comparing two trees reports every path at most
once, or that comparing two trees the other way round finds the same differences
seen from the other side. That last law holds over the whole comparison
where no directory present on one side only has subdirectories: below such
a directory, subdirectories are walked as if they were on the right.

The library never touches a filesystem. `app/` is the code around it: async
traits for files and directories, an implementation over the local
filesystem, the lookups of objects and refs that read files and hand their
bytes to the library, the loop that loads subtrees while two trees are
compared, the reading of the files whose line diffs are made, and serde
helpers.

`tests/` exercises the library on concrete values.
