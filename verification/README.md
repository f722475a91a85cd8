# huggingfacedownloader

Downloads the files of a Hugging Face repository, several files at a time and
each file in slices, and resumes a download on top of the slices that are
complete.

```
huggingfacedownloader -j moonshotai/Kimi-K2-Instruct -m 4
huggingfacedownloader -j facebook/flores -m 2 -t datasets -c 1
huggingfacedownloader -j moonshotai/Kimi-K2-Instruct -p 100MB
```

`src/` is the library, written in Verus: the rules that the downloader goes by,
with their contracts and proofs. `app/` is the program around it, which talks to
the network, the disk and the terminal, and takes the steps that the library
names. `tests/` runs the library on examples.

| module           | what it decides                                              |
|------------------|--------------------------------------------------------------|
| `smart_dl`       | slices of a file, requests and their repetition, the merge    |
| `hf`             | walk through a listing, addresses, expected hashes, verdicts  |
| `hashing`        | SHA-1 and SHA-256 of a file that is read piece by piece       |
| `sizes`          | sizes such as `100MB`, read and written                       |
| `config`         | command line, settings, context                               |
| `taskwait`       | the number of threads at work                                 |
| `async_taskwait` | the number of tasks that hold a permit                        |
| `paths`, `text`  | paths and text as sequences of characters                     |

What the proofs show of the whole: the slices of a file, put one behind the
other, give back the file; a slice is left as it is on a resumed download just
when it is complete; a request that fails is repeated until it is answered in
full, but no more often than allowed, and a download only ends well if all of it
was fetched; the walk through a listing ends and misses no file; a hash does not
depend on the pieces in which a file is read; and the final verification names
just the files that have another hash than the hub lists. Whole sizes are read
without loss, and a size that is a whole multiple of its unit reads back as it
was written.
