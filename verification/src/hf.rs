//! A repository on the hub: its listing, the addresses of its files, and the
//! hashes that the files are held to.
use vstd::hash_map::StringHashMap;
use vstd::prelude::*;

use crate::text;

verus! {

/// A file of a repository.
#[derive(Debug)]
pub struct RepoFile {
    pub rfilename: String,
    pub lfs: Option<LfsInfo>,
    pub size: Option<i64>,
}

/// What the hub says of a file that is kept in large file storage.
#[derive(Debug)]
pub struct LfsInfo {
    /// The SHA-256 hash of the file.
    pub oid: String,
    pub size: i64,
    pub pointer_size: i32,
}

/// What came of holding a file to its hash.
#[derive(Debug)]
pub struct FileVerificationResult {
    pub filename: String,
    pub expected_hash: String,
    pub actual_hash: String,
    pub passed: bool,
}

/// An entry of a directory, as the hub lists it.
#[derive(Debug)]
pub struct ApiFileInfo {
    pub file_type: String,
    pub path: String,
    pub size: Option<i64>,
    pub lfs: Option<LfsInfo>,
}

// ---------------------------------------------------------------------------
// The walk through the listing
// ---------------------------------------------------------------------------

/// Whether an entry is a file.
pub open spec fn is_file(entry: ApiFileInfo) -> bool {
    entry.file_type@ == "file"@
}

/// Whether an entry is a directory.
pub open spec fn is_directory(entry: ApiFileInfo) -> bool {
    entry.file_type@ == "directory"@
}

/// The file that an entry describes.
pub open spec fn file_of(entry: ApiFileInfo) -> RepoFile {
    RepoFile { rfilename: entry.path, lfs: entry.lfs, size: entry.size }
}

/// The files among some entries, in order.
pub open spec fn files_in(entries: Seq<ApiFileInfo>) -> Seq<RepoFile>
    decreases entries.len(),
{
    if entries.len() == 0 {
        Seq::empty()
    } else if is_file(entries.last()) {
        files_in(entries.drop_last()).push(file_of(entries.last()))
    } else {
        files_in(entries.drop_last())
    }
}

/// The directories among some entries, in order.
pub open spec fn folders_in(entries: Seq<ApiFileInfo>) -> Seq<ApiFileInfo>
    decreases entries.len(),
{
    if entries.len() == 0 {
        Seq::empty()
    } else if is_directory(entries.last()) {
        folders_in(entries.drop_last()).push(entries.last())
    } else {
        folders_in(entries.drop_last())
    }
}

/// How the walk goes on with the entries that are still to be looked at: the
/// files up to the next directory, that directory, and the entries behind it.
pub open spec fn advance(pending: Seq<ApiFileInfo>) -> (
    Seq<RepoFile>,
    Option<String>,
    Seq<ApiFileInfo>,
)
    decreases pending.len(),
{
    if pending.len() == 0 {
        (Seq::empty(), None, Seq::empty())
    } else if is_directory(pending.first()) {
        (Seq::empty(), Some(pending.first().path), pending.drop_first())
    } else {
        let next = advance(pending.drop_first());
        if is_file(pending.first()) {
            (seq![file_of(pending.first())] + next.0, next.1, next.2)
        } else {
            next
        }
    }
}

/// The walk through the directories of a repository.
pub struct Listing {
    files: Vec<RepoFile>,
    /// The entries that are still to be looked at, the next one last.
    stack: Vec<ApiFileInfo>,
}

fn push_reversed(stack: &mut Vec<ApiFileInfo>, entries: Vec<ApiFileInfo>)
    ensures
        final(stack)@ == old(stack)@ + entries@.reverse(),
{
    let mut rest = entries;
    loop
        invariant
            rest@.len() <= entries@.len(),
            rest@ == entries@.take(rest@.len() as int),
            stack@ == old(stack)@ + entries@.skip(rest@.len() as int).reverse(),
        ensures
            stack@ == old(stack)@ + entries@.reverse(),
        decreases rest@.len(),
    {
        let ghost n = rest@.len() as int;
        match rest.pop() {
            Some(entry) => {
                stack.push(entry);
                proof {
                    assert(entry == entries@[n - 1]);
                    assert(entries@.skip(n - 1).reverse() =~= entries@.skip(n).reverse().push(
                        entry,
                    ));
                    assert(stack@ =~= old(stack)@ + entries@.skip(n - 1).reverse());
                }
            },
            None => {
                assert(entries@.skip(0) =~= entries@);
                break;
            },
        }
    }
}

impl Listing {
    /// The files that were found, in the order of the walk.
    pub closed spec fn files(self) -> Seq<RepoFile> {
        self.files@
    }

    /// The entries that are still to be looked at, in order.
    pub closed spec fn pending(self) -> Seq<ApiFileInfo> {
        self.stack@.reverse()
    }

    /// Begins the walk with the entries of the top directory: its files come
    /// first, and its directories are still to be looked at.
    pub fn new(root: Vec<ApiFileInfo>) -> (r: Self)
        ensures
            r.files() == files_in(root@),
            r.pending() == folders_in(root@),
    {
        let mut rest: Vec<ApiFileInfo> = Vec::new();
        push_reversed(&mut rest, root);
        let mut files: Vec<RepoFile> = Vec::new();
        let mut folders: Vec<ApiFileInfo> = Vec::new();
        assert(rest@ =~= root@.reverse());
        assert(root@.skip(0) =~= root@);
        let ghost mut done: int = 0;
        loop
            invariant
                0 <= done <= root@.len(),
                rest@ == root@.skip(done).reverse(),
                files@ == files_in(root@.take(done)),
                folders@ == folders_in(root@.take(done)),
            ensures
                files@ == files_in(root@),
                folders@ == folders_in(root@),
            decreases rest@.len(),
        {
            match rest.pop() {
                Some(item) => {
                    proof {
                        assert(item == root@[done]);
                        assert(rest@ =~= root@.skip(done + 1).reverse());
                        assert(root@.take(done + 1).drop_last() =~= root@.take(done));
                        assert(root@.take(done + 1).last() == item);
                        done = done + 1;
                    }
                    if text::same_text(&item.file_type, "file") {
                        proof {
                            lemma_kinds_differ(item);
                        }
                        files.push(
                            RepoFile { rfilename: item.path, lfs: item.lfs, size: item.size },
                        );
                    } else if text::same_text(&item.file_type, "directory") {
                        folders.push(item);
                    }
                },
                None => {
                    assert(root@.take(done) =~= root@);
                    break;
                },
            }
        }
        let mut stack: Vec<ApiFileInfo> = Vec::new();
        push_reversed(&mut stack, folders);
        assert(stack@.reverse() =~= folders_in(root@));
        Listing { files, stack }
    }

    /// Goes on to the next directory, whose entries are to be fetched, and
    /// takes up the files on the way. Without one the walk is at its end.
    pub fn next_folder(&mut self) -> (r: Option<String>)
        ensures
            final(self).files() == old(self).files() + advance(old(self).pending()).0,
            r == advance(old(self).pending()).1,
            final(self).pending() == advance(old(self).pending()).2,
    {
        loop
            invariant
                old(self).files() + advance(old(self).pending()).0 == self.files() + advance(
                    self.pending(),
                ).0,
                advance(old(self).pending()).1 == advance(self.pending()).1,
                advance(old(self).pending()).2 == advance(self.pending()).2,
            decreases self.pending().len(),
        {
            let ghost before = *self;
            match self.stack.pop() {
                Some(item) => {
                    proof {
                        assert(before.pending().first() == item);
                        assert(before.pending().drop_first() =~= self.stack@.reverse());
                    }
                    if text::same_text(&item.file_type, "directory") {
                        assert(self.files() =~= self.files() + advance(before.pending()).0);
                        return Some(item.path);
                    }
                    if text::same_text(&item.file_type, "file") {
                        self.files.push(
                            RepoFile { rfilename: item.path, lfs: item.lfs, size: item.size },
                        );
                        assert(self.files() + advance(self.pending()).0 =~= before.files() + (seq![
                            file_of(item),
                        ] + advance(self.pending()).0));
                    }
                },
                None => {
                    assert(self.pending() =~= Seq::empty());
                    assert(self.files() =~= self.files() + advance(before.pending()).0);
                    return None;
                },
            }
        }
    }

    /// Takes up the entries of a directory: they come before all others.
    pub fn folder_fetched(&mut self, entries: Vec<ApiFileInfo>)
        ensures
            final(self).files() == old(self).files(),
            final(self).pending() == entries@ + old(self).pending(),
    {
        push_reversed(&mut self.stack, entries);
        assert(self.pending() =~= entries@ + old(self).pending());
    }

    /// Takes the answer to the request for the entries of a directory. One that
    /// the hub does not list is passed over; of one that it lists the entries are
    /// taken up, or the reason is given why they could not be read.
    pub fn folder_answered(&mut self, status: u16, entries: Result<Vec<ApiFileInfo>, String>) -> (r:
        Result<(), String>)
        ensures
            final(self).files() == old(self).files(),
            match entries {
                Ok(entries) if is_success(status) => {
                    &&& r is Ok
                    &&& final(self).pending() == entries@ + old(self).pending()
                },
                Err(reason) if is_success(status) => {
                    &&& r == Err::<(), String>(reason)
                    &&& final(self).pending() == old(self).pending()
                },
                _ => {
                    &&& r is Ok
                    &&& final(self).pending() == old(self).pending()
                },
            },
    {
        if !success(status) {
            return Ok(());
        }
        match entries {
            Ok(entries) => {
                self.folder_fetched(entries);
                Ok(())
            },
            Err(reason) => Err(reason),
        }
    }

    /// Ends the walk: the files that were found, sorted by their names.
    pub fn finish(self) -> (r: Vec<RepoFile>)
        ensures
            ordered(r@),
            forall|name: Seq<char>| #[trigger] named(r@, name) == named(self.files(), name),
            r@.len() == self.files().len(),
            r@.to_multiset() == self.files().to_multiset(),
    {
        sort_files(self.files)
    }
}

proof fn lemma_kinds_differ(entry: ApiFileInfo)
    ensures
        !(is_file(entry) && is_directory(entry)),
{
    reveal_strlit("file");
    reveal_strlit("directory");
    assert("file"@.len() != "directory"@.len());
}

/// The files below some entries, directory by directory, down to `depth`
/// directories. `reply` gives the entries of a directory, if the hub lists it.
pub open spec fn files_below(
    entries: Seq<ApiFileInfo>,
    reply: spec_fn(Seq<char>) -> Option<Seq<ApiFileInfo>>,
    depth: nat,
) -> Seq<RepoFile>
    decreases depth, entries.len(),
{
    if entries.len() == 0 {
        Seq::empty()
    } else {
        let rest = files_below(entries.drop_first(), reply, depth);
        if is_directory(entries.first()) {
            (if depth == 0 {
                Seq::empty()
            } else {
                files_below(
                    contents(reply, entries.first().path@),
                    reply,
                    (depth - 1) as nat,
                )
            }) + rest
        } else if is_file(entries.first()) {
            seq![file_of(entries.first())] + rest
        } else {
            rest
        }
    }
}

/// The entries of a directory. One that the hub does not list counts as empty.
pub open spec fn contents(
    reply: spec_fn(Seq<char>) -> Option<Seq<ApiFileInfo>>,
    path: Seq<char>,
) -> Seq<ApiFileInfo> {
    match reply(path) {
        Some(entries) => entries,
        None => Seq::empty(),
    }
}

/// Whether the directories below some entries are nested at most `depth` deep.
pub open spec fn fits(
    entries: Seq<ApiFileInfo>,
    reply: spec_fn(Seq<char>) -> Option<Seq<ApiFileInfo>>,
    depth: nat,
) -> bool
    decreases depth, entries.len(),
{
    entries.len() == 0 || {
        &&& fits(entries.drop_first(), reply, depth)
        &&& is_directory(entries.first()) ==> depth > 0 && fits(
            contents(reply, entries.first().path@),
            reply,
            (depth - 1) as nat,
        )
    }
}

proof fn lemma_files_below_deeper(
    entries: Seq<ApiFileInfo>,
    reply: spec_fn(Seq<char>) -> Option<Seq<ApiFileInfo>>,
    depth: nat,
)
    requires
        fits(entries, reply, depth),
    ensures
        fits(entries, reply, depth + 1),
        files_below(entries, reply, depth + 1) == files_below(entries, reply, depth),
    decreases depth, entries.len(),
{
    if entries.len() > 0 {
        lemma_files_below_deeper(entries.drop_first(), reply, depth);
        if is_directory(entries.first()) {
            lemma_files_below_deeper(
                contents(reply, entries.first().path@),
                reply,
                (depth - 1) as nat,
            );
        }
    }
}

proof fn lemma_files_below_append(
    a: Seq<ApiFileInfo>,
    b: Seq<ApiFileInfo>,
    reply: spec_fn(Seq<char>) -> Option<Seq<ApiFileInfo>>,
    depth: nat,
)
    requires
        fits(a, reply, depth),
        fits(b, reply, depth),
    ensures
        fits(a + b, reply, depth),
        files_below(a + b, reply, depth) == files_below(a, reply, depth) + files_below(
            b,
            reply,
            depth,
        ),
    decreases a.len(),
{
    if a.len() == 0 {
        assert(a + b =~= b);
        assert(files_below(a, reply, depth) + files_below(b, reply, depth) =~= files_below(
            b,
            reply,
            depth,
        ));
    } else {
        lemma_files_below_append(a.drop_first(), b, reply, depth);
        assert((a + b).drop_first() =~= a.drop_first() + b);
        assert((a + b).first() == a.first());
        assert(files_below(a + b, reply, depth) =~= files_below(a, reply, depth) + files_below(
            b,
            reply,
            depth,
        ));
    }
}

/// The walk misses no file and invents none: at each step, what it has taken up
/// and what lies below the entries that are still to be looked at make up the
/// same files, in the same order. At its end nothing is left to be looked at.
pub proof fn law_walk_lists_every_file(
    pending: Seq<ApiFileInfo>,
    reply: spec_fn(Seq<char>) -> Option<Seq<ApiFileInfo>>,
    depth: nat,
)
    requires
        fits(pending, reply, depth),
    ensures
        match advance(pending).1 {
            Some(path) => {
                let next = contents(reply, path@) + advance(pending).2;
                &&& fits(next, reply, depth)
                &&& files_below(pending, reply, depth) == advance(pending).0 + files_below(
                    next,
                    reply,
                    depth,
                )
            },
            None => {
                &&& files_below(pending, reply, depth) == advance(pending).0
                &&& advance(pending).2.len() == 0
            },
        },
    decreases pending.len(),
{
    if pending.len() == 0 {
    } else if is_directory(pending.first()) {
        let inner = contents(reply, pending.first().path@);
        lemma_files_below_deeper(inner, reply, (depth - 1) as nat);
        lemma_files_below_append(inner, pending.drop_first(), reply, depth);
        assert(advance(pending).0 + files_below(
            inner + pending.drop_first(),
            reply,
            depth,
        ) =~= files_below(inner + pending.drop_first(), reply, depth));
    } else {
        law_walk_lists_every_file(pending.drop_first(), reply, depth);
        lemma_kinds_differ(pending.first());
        let inner = advance(pending.drop_first());
        if is_file(pending.first()) {
            match inner.1 {
                Some(path) => {
                    let next = contents(reply, path@) + inner.2;
                    assert((seq![file_of(pending.first())] + inner.0) + files_below(
                        next,
                        reply,
                        depth,
                    ) =~= seq![file_of(pending.first())] + (inner.0 + files_below(
                        next,
                        reply,
                        depth,
                    )));
                },
                None => {},
            }
        }
    }
}

/// The number of directories below some entries, down to `depth` directories.
pub open spec fn folders_below(
    entries: Seq<ApiFileInfo>,
    reply: spec_fn(Seq<char>) -> Option<Seq<ApiFileInfo>>,
    depth: nat,
) -> nat
    decreases depth, entries.len(),
{
    if entries.len() == 0 {
        0
    } else {
        folders_below(entries.drop_first(), reply, depth) + (if is_directory(entries.first()) {
            1 + (if depth == 0 {
                0
            } else {
                folders_below(
                    contents(reply, entries.first().path@),
                    reply,
                    (depth - 1) as nat,
                )
            })
        } else {
            0
        })
    }
}

proof fn lemma_folders_below_deeper(
    entries: Seq<ApiFileInfo>,
    reply: spec_fn(Seq<char>) -> Option<Seq<ApiFileInfo>>,
    depth: nat,
)
    requires
        fits(entries, reply, depth),
    ensures
        folders_below(entries, reply, depth + 1) == folders_below(entries, reply, depth),
    decreases depth, entries.len(),
{
    if entries.len() > 0 {
        lemma_folders_below_deeper(entries.drop_first(), reply, depth);
        if is_directory(entries.first()) {
            lemma_folders_below_deeper(
                contents(reply, entries.first().path@),
                reply,
                (depth - 1) as nat,
            );
        }
    }
}

proof fn lemma_folders_below_append(
    a: Seq<ApiFileInfo>,
    b: Seq<ApiFileInfo>,
    reply: spec_fn(Seq<char>) -> Option<Seq<ApiFileInfo>>,
    depth: nat,
)
    ensures
        folders_below(a + b, reply, depth) == folders_below(a, reply, depth) + folders_below(
            b,
            reply,
            depth,
        ),
    decreases a.len(),
{
    if a.len() == 0 {
        assert(a + b =~= b);
    } else {
        lemma_folders_below_append(a.drop_first(), b, reply, depth);
        assert((a + b).drop_first() =~= a.drop_first() + b);
        assert((a + b).first() == a.first());
    }
}

proof fn lemma_walk_uses_up_folders(
    pending: Seq<ApiFileInfo>,
    reply: spec_fn(Seq<char>) -> Option<Seq<ApiFileInfo>>,
    depth: nat,
)
    requires
        fits(pending, reply, depth),
        advance(pending).1 is Some,
    ensures
        folders_below(pending, reply, depth) == 1 + folders_below(
            contents(reply, advance(pending).1.unwrap()@) + advance(pending).2,
            reply,
            depth,
        ),
    decreases pending.len(),
{
    if is_directory(pending.first()) {
        let inner = contents(reply, pending.first().path@);
        lemma_folders_below_deeper(inner, reply, (depth - 1) as nat);
        lemma_folders_below_append(inner, pending.drop_first(), reply, depth);
    } else {
        lemma_walk_uses_up_folders(pending.drop_first(), reply, depth);
    }
}

/// The files that the walk takes up from some entries on, if it ends before the
/// given number of directories has been asked for.
pub open spec fn walked(
    pending: Seq<ApiFileInfo>,
    reply: spec_fn(Seq<char>) -> Option<Seq<ApiFileInfo>>,
    requests: nat,
) -> Option<Seq<RepoFile>>
    decreases requests,
{
    match advance(pending).1 {
        None => Some(advance(pending).0),
        Some(path) => if requests == 0 {
            None
        } else {
            match walked(
                contents(reply, path@) + advance(pending).2,
                reply,
                (requests - 1) as nat,
            ) {
                Some(files) => Some(advance(pending).0 + files),
                None => None,
            }
        },
    }
}

/// The walk ends: it asks once for each directory, and it takes up all files
/// below the entries that it began with.
pub proof fn law_walk_ends(
    pending: Seq<ApiFileInfo>,
    reply: spec_fn(Seq<char>) -> Option<Seq<ApiFileInfo>>,
    depth: nat,
)
    requires
        fits(pending, reply, depth),
    ensures
        walked(pending, reply, folders_below(pending, reply, depth)) == Some(
            files_below(pending, reply, depth),
        ),
    decreases folders_below(pending, reply, depth),
{
    law_walk_lists_every_file(pending, reply, depth);
    match advance(pending).1 {
        Some(path) => {
            lemma_walk_uses_up_folders(pending, reply, depth);
            law_walk_ends(contents(reply, path@) + advance(pending).2, reply, depth);
        },
        None => {},
    }
}

// ---------------------------------------------------------------------------
// Sorting
// ---------------------------------------------------------------------------

/// Whether files stand in the order of their names.
pub open spec fn ordered(files: Seq<RepoFile>) -> bool {
    forall|i: int, j: int|
        #![trigger files[i], files[j]]
        0 <= i < j < files.len() ==> !text::precedes(files[j].rfilename@, files[i].rfilename@)
}

/// The files of one name, in order.
pub open spec fn named(files: Seq<RepoFile>, name: Seq<char>) -> Seq<RepoFile>
    decreases files.len(),
{
    if files.len() == 0 {
        Seq::empty()
    } else if files.last().rfilename@ == name {
        named(files.drop_last(), name).push(files.last())
    } else {
        named(files.drop_last(), name)
    }
}

proof fn lemma_named_append(a: Seq<RepoFile>, b: Seq<RepoFile>, name: Seq<char>)
    ensures
        named(a + b, name) == named(a, name) + named(b, name),
    decreases b.len(),
{
    if b.len() == 0 {
        assert(a + b =~= a);
        assert(named(a, name) + named(b, name) =~= named(a, name));
    } else {
        lemma_named_append(a, b.drop_last(), name);
        assert((a + b).drop_last() =~= a + b.drop_last());
        assert(named(a + b, name) =~= named(a, name) + named(b, name));
    }
}

proof fn lemma_named_none(a: Seq<RepoFile>, name: Seq<char>)
    requires
        forall|i: int| #![trigger a[i]] 0 <= i < a.len() ==> a[i].rfilename@ != name,
    ensures
        named(a, name).len() == 0,
    decreases a.len(),
{
    if a.len() > 0 {
        assert(a.last() == a[a.len() - 1]);
        assert forall|i: int| #![trigger a.drop_last()[i]] 0 <= i
            < a.drop_last().len() implies a.drop_last()[i].rfilename@ != name by {
            assert(a.drop_last()[i] == a[i]);
        }
        lemma_named_none(a.drop_last(), name);
    }
}

/// Putting a file behind those of its name keeps, for each name, the order of
/// the files.
proof fn lemma_named_insert(a: Seq<RepoFile>, at: int, file: RepoFile, name: Seq<char>)
    requires
        0 <= at <= a.len(),
        forall|i: int| #![trigger a[i]] at <= i < a.len() ==> a[i].rfilename@ != file.rfilename@,
    ensures
        named(a.insert(at, file), name) == named(a.push(file), name),
{
    let front = a.take(at);
    let back = a.skip(at);
    let one = seq![file];
    assert(a.insert(at, file) =~= front + one + back);
    assert(a =~= front + back);
    lemma_named_append(front + one, back, name);
    lemma_named_append(front, one, name);
    lemma_named_append(front, back, name);
    assert(a.push(file).drop_last() =~= a);
    reveal_with_fuel(named, 2);
    assert(one.drop_last() =~= Seq::empty());
    if file.rfilename@ == name {
        assert forall|i: int| #![trigger back[i]] 0 <= i < back.len() implies back[i].rfilename@
            != name by {
            assert(back[i] == a[at + i]);
        }
        lemma_named_none(back, name);
    }
    assert(named(a.insert(at, file), name) =~= named(a.push(file), name));
}

/// Sorts files by their names. Files of the same name keep their order.
pub fn sort_files(files: Vec<RepoFile>) -> (r: Vec<RepoFile>)
    ensures
        ordered(r@),
        forall|name: Seq<char>| #[trigger] named(r@, name) == named(files@, name),
        r@.len() == files@.len(),
        r@.to_multiset() == files@.to_multiset(),
{
    let ghost all = files@;
    let mut rest = files;
    let mut reversed: Vec<RepoFile> = Vec::new();
    loop
        invariant
            rest@.len() <= all.len(),
            rest@ == all.take(rest@.len() as int),
            reversed@ == all.skip(rest@.len() as int).reverse(),
        ensures
            reversed@ == all.reverse(),
        decreases rest@.len(),
    {
        let ghost n = rest@.len() as int;
        match rest.pop() {
            Some(file) => {
                reversed.push(file);
                assert(reversed@ =~= all.skip(n - 1).reverse());
            },
            None => {
                assert(all.skip(0) =~= all);
                break;
            },
        }
    }
    let mut sorted: Vec<RepoFile> = Vec::new();
    let ghost mut done: int = 0;
    assert(all.skip(0) =~= all);
    assert(all.take(0) =~= Seq::empty());
    loop
        invariant
            0 <= done <= all.len(),
            reversed@ == all.skip(done).reverse(),
            sorted@.len() == done,
            ordered(sorted@),
            forall|name: Seq<char>| #[trigger] named(sorted@, name) == named(all.take(done), name),
        ensures
            ordered(sorted@),
            sorted@.len() == all.len(),
            forall|name: Seq<char>| #[trigger] named(sorted@, name) == named(all, name),
        decreases reversed@.len(),
    {
        match reversed.pop() {
            Some(file) => {
                let at = place_for(&sorted, &file);
                let ghost before = sorted@;
                proof {
                    assert(file == all[done]);
                    assert(reversed@ =~= all.skip(done + 1).reverse());
                }
                sorted.insert(at, file);
                proof {
                    assert(all.take(done + 1).drop_last() =~= all.take(done));
                    assert forall|name: Seq<char>| #[trigger] named(sorted@, name) == named(
                        all.take(done + 1),
                        name,
                    ) by {
                        lemma_named_insert(before, at as int, file, name);
                        assert(before.push(file).drop_last() =~= before);
                        assert(named(before, name) == named(all.take(done), name));
                    }
                    lemma_ordered_insert(before, at as int, file);
                    done = done + 1;
                }
            },
            None => {
                assert(all.take(done) =~= all);
                break;
            },
        }
    }
    proof {
        law_sorting_keeps_the_files(sorted@, all);
    }
    sorted
}

proof fn lemma_ordered_insert(a: Seq<RepoFile>, at: int, file: RepoFile)
    requires
        ordered(a),
        0 <= at <= a.len(),
        forall|i: int|
            #![trigger a[i]]
            0 <= i < at ==> !text::precedes(file.rfilename@, a[i].rfilename@),
        forall|i: int|
            #![trigger a[i]]
            at <= i < a.len() ==> text::precedes(file.rfilename@, a[i].rfilename@),
    ensures
        ordered(a.insert(at, file)),
{
    let b = a.insert(at, file);
    assert forall|i: int, j: int| #![trigger b[i], b[j]] 0 <= i < j < b.len() implies !text::precedes(
        b[j].rfilename@,
        b[i].rfilename@,
    ) by {
        let x = if i < at { i } else { i - 1 };
        let y = if j < at { j } else { j - 1 };
        if i == at {
            assert(b[j] == a[y]);
            text::lemma_precedes_total(file.rfilename@, a[y].rfilename@);
        } else if j == at {
            assert(b[i] == a[x]);
        } else {
            assert(b[i] == a[x]);
            assert(b[j] == a[y]);
        }
    }
}

/// Where a file belongs among sorted files: behind those of its name.
fn place_for(sorted: &Vec<RepoFile>, file: &RepoFile) -> (at: usize)
    requires
        ordered(sorted@),
    ensures
        at <= sorted@.len(),
        forall|i: int|
            #![trigger sorted@[i]]
            0 <= i < at ==> !text::precedes(file.rfilename@, sorted@[i].rfilename@),
        forall|i: int|
            #![trigger sorted@[i]]
            at <= i < sorted@.len() ==> text::precedes(file.rfilename@, sorted@[i].rfilename@)
                && sorted@[i].rfilename@ != file.rfilename@,
{
    let mut at: usize = sorted.len();
    while at > 0 && text::text_precedes(&file.rfilename, &sorted[at - 1].rfilename)
        invariant
            at <= sorted@.len(),
            forall|i: int|
                #![trigger sorted@[i]]
                at <= i < sorted@.len() ==> text::precedes(
                    file.rfilename@,
                    sorted@[i].rfilename@,
                ),
        decreases at,
    {
        at = at - 1;
    }
    proof {
        assert forall|i: int| #![trigger sorted@[i]] 0 <= i < at implies !text::precedes(
            file.rfilename@,
            sorted@[i].rfilename@,
        ) by {
            let last = sorted@[at - 1].rfilename@;
            let name = sorted@[i].rfilename@;
            if text::precedes(file.rfilename@, name) && i < at - 1 {
                text::lemma_precedes_total(name, last);
                if text::precedes(name, last) {
                    text::lemma_precedes_transitive(file.rfilename@, name, last);
                }
            }
        }
        assert forall|i: int| #![trigger sorted@[i]] at <= i < sorted@.len() implies text::precedes(
            file.rfilename@,
            sorted@[i].rfilename@,
        ) && sorted@[i].rfilename@ != file.rfilename@ by {
            text::lemma_precedes_total(file.rfilename@, sorted@[i].rfilename@);
        }
    }
    at
}

proof fn lemma_named_has_last(files: Seq<RepoFile>, i: int)
    requires
        0 <= i < files.len(),
    ensures
        named(files, files[i].rfilename@).len() > 0,
    decreases files.len(),
{
    if i < files.len() - 1 {
        lemma_named_has_last(files.drop_last(), i);
        assert(files.drop_last()[i] == files[i]);
    }
}

proof fn lemma_named_is_there(files: Seq<RepoFile>, name: Seq<char>) -> (i: int)
    requires
        named(files, name).len() > 0,
    ensures
        0 <= i < files.len(),
        files[i].rfilename@ == name,
    decreases files.len(),
{
    if files.last().rfilename@ == name {
        files.len() - 1
    } else {
        lemma_named_is_there(files.drop_last(), name)
    }
}

/// Files in the order of their names, with the files of each name in a given
/// order, stand in one order only.
pub proof fn law_sorted_order_is_unique(a: Seq<RepoFile>, b: Seq<RepoFile>)
    requires
        ordered(a),
        ordered(b),
        forall|name: Seq<char>| #[trigger] named(a, name) == named(b, name),
    ensures
        a == b,
    decreases a.len(),
{
    if a.len() == 0 {
        if b.len() > 0 {
            lemma_named_has_last(b, b.len() - 1);
            let name = b[b.len() - 1].rfilename@;
            assert(named(a, name) == named(b, name));
        }
        assert(a =~= b);
    } else {
        let x = a.last().rfilename@;
        lemma_named_has_last(a, a.len() - 1);
        assert(named(a, x) == named(b, x));
        let i = lemma_named_is_there(b, x);
        let y = b.last().rfilename@;
        lemma_named_has_last(b, b.len() - 1);
        assert(named(a, y) == named(b, y));
        let j = lemma_named_is_there(a, y);
        text::lemma_precedes_total(x, y);
        assert(!text::precedes(y, x)) by {
            if i < b.len() - 1 {
                assert(!text::precedes(b[b.len() - 1].rfilename@, b[i].rfilename@));
            }
        }
        assert(!text::precedes(x, y)) by {
            if j < a.len() - 1 {
                assert(!text::precedes(a[a.len() - 1].rfilename@, a[j].rfilename@));
            }
        }
        assert(x == y);
        assert(named(a, x).last() == a.last());
        assert(named(b, x).last() == b.last());
        let front_a = a.drop_last();
        let front_b = b.drop_last();
        assert forall|name: Seq<char>| #[trigger] named(front_a, name) == named(
            front_b,
            name,
        ) by {
            assert(named(a, name) == named(b, name));
            if name == x {
                assert(named(a, name).drop_last() =~= named(front_a, name));
                assert(named(b, name).drop_last() =~= named(front_b, name));
            }
        }
        assert(ordered(front_a)) by {
            assert forall|i: int, j: int|
                #![trigger front_a[i], front_a[j]]
                0 <= i < j < front_a.len() implies !text::precedes(
                front_a[j].rfilename@,
                front_a[i].rfilename@,
            ) by {
                assert(front_a[i] == a[i] && front_a[j] == a[j]);
            }
        }
        assert(ordered(front_b)) by {
            assert forall|i: int, j: int|
                #![trigger front_b[i], front_b[j]]
                0 <= i < j < front_b.len() implies !text::precedes(
                front_b[j].rfilename@,
                front_b[i].rfilename@,
            ) by {
                assert(front_b[i] == b[i] && front_b[j] == b[j]);
            }
        }
        law_sorted_order_is_unique(front_a, front_b);
        assert(a =~= front_a.push(a.last()));
        assert(b =~= front_b.push(b.last()));
    }
}

proof fn lemma_count_by_name(files: Seq<RepoFile>, file: RepoFile)
    ensures
        files.to_multiset().count(file) == named(files, file.rfilename@).to_multiset().count(file),
    decreases files.len(),
{
    broadcast use vstd::seq_lib::group_to_multiset_ensures;

    let name = file.rfilename@;
    if files.len() > 0 {
        let front = files.drop_last();
        lemma_count_by_name(front, file);
        assert(files =~= front.push(files.last()));
    }
}

/// Files that have the same files of each name are the same files, as often.
pub proof fn law_sorting_keeps_the_files(a: Seq<RepoFile>, b: Seq<RepoFile>)
    requires
        forall|name: Seq<char>| #[trigger] named(a, name) == named(b, name),
    ensures
        a.to_multiset() == b.to_multiset(),
{
    assert forall|file: RepoFile| a.to_multiset().count(file) == b.to_multiset().count(file) by {
        lemma_count_by_name(a, file);
        lemma_count_by_name(b, file);
        assert(named(a, file.rfilename@) == named(b, file.rfilename@));
    }
    assert(a.to_multiset() =~= b.to_multiset());
}

/// The number of files that are kept in large file storage.
pub open spec fn lfs_count_of(files: Seq<RepoFile>) -> nat
    decreases files.len(),
{
    if files.len() == 0 {
        0
    } else {
        lfs_count_of(files.drop_last()) + (if files.last().lfs is Some {
            1nat
        } else {
            0nat
        })
    }
}

/// The number of files that are kept in large file storage.
pub fn lfs_count(files: &Vec<RepoFile>) -> (r: usize)
    ensures
        r == lfs_count_of(files@),
        r <= files@.len(),
{
    let mut r: usize = 0;
    let mut i: usize = 0;
    while i < files.len()
        invariant
            i <= files@.len(),
            r <= i,
            r == lfs_count_of(files@.take(i as int)),
        decreases files@.len() - i,
    {
        if files[i].lfs.is_some() {
            r = r + 1;
        }
        i = i + 1;
        assert(files@.take(i as int).drop_last() =~= files@.take(i - 1));
    }
    assert(files@.take(i as int) =~= files@);
    r
}

/// Says how many files there are.
pub fn found_message(files: &Vec<RepoFile>) -> (r: String)
    ensures
        r@ == "Found "@ + text::decimal(files@.len()) + " files, "@ + text::decimal(
            lfs_count_of(files@),
        ) + " with LFS"@,
{
    let total = text::decimal_text(files.len() as u64);
    let large = text::decimal_text(lfs_count(files) as u64);
    let mut r = text::join2("Found ", &total);
    r.append(" files, ");
    r.append(&large);
    r.append(" with LFS");
    r
}

// ---------------------------------------------------------------------------
// Addresses
// ---------------------------------------------------------------------------

/// The address of the listing of a repository. `path` is empty, or names the
/// place to go on from.
pub open spec fn tree_address(
    repo_type: Seq<char>,
    repo: Seq<char>,
    path: Seq<char>,
) -> Seq<char> {
    let tree = "https://huggingface.co/api/"@ + repo_type + "/"@ + repo + "/tree/main"@;
    if path.len() == 0 {
        tree
    } else {
        tree + "?path="@ + path
    }
}

/// The address of the listing of a repository.
pub fn tree_url(repo_type: &str, repo: &str, path: &str) -> (r: String)
    ensures
        r@ == tree_address(repo_type@, repo@, path@),
{
    let mut r = text::join2("https://huggingface.co/api/", repo_type);
    r.append("/");
    r.append(repo);
    r.append("/tree/main");
    if !path.is_empty() {
        r.append("?path=");
        r.append(path);
    }
    r
}

/// The address of the listing of a directory.
pub open spec fn folder_address(
    repo_type: Seq<char>,
    repo: Seq<char>,
    folder: Seq<char>,
) -> Seq<char> {
    "https://huggingface.co/api/"@ + repo_type + "/"@ + repo + "/tree/main/"@ + folder
}

/// The address of the listing of a directory.
pub fn folder_url(repo_type: &str, repo: &str, folder: &str) -> (r: String)
    ensures
        r@ == folder_address(repo_type@, repo@, folder@),
{
    let mut r = text::join2("https://huggingface.co/api/", repo_type);
    r.append("/");
    r.append(repo);
    r.append("/tree/main/");
    r.append(folder);
    r
}

/// Whether an HTTP status means success.
pub open spec fn is_success(status: u16) -> bool {
    200 <= status <= 299
}

/// Whether an HTTP status means success.
pub fn success(status: u16) -> (r: bool)
    ensures
        r == is_success(status),
{
    200 <= status && status <= 299
}

/// Holds the answer to the request for a listing to its status. `described` is
/// the status with its reason.
pub fn check_listing_status(
    status: u16,
    described: &str,
    repo_type: &str,
    repo: &str,
) -> (r: Result<(), String>)
    ensures
        r is Ok <==> is_success(status),
        r matches Err(e) ==> e@ == (if status == 404 {
            "Repository not found or private: "@ + repo_type@ + "/"@ + repo@
        } else {
            "Failed to fetch repo files: HTTP "@ + described@
        }),
{
    if success(status) {
        return Ok(());
    }
    if status == 404 {
        let mut e = text::join2("Repository not found or private: ", repo_type);
        e.append("/");
        e.append(repo);
        return Err(e);
    }
    Err(text::join2("Failed to fetch repo files: HTTP ", described))
}

/// Where the files of a repository of this type lie.
pub open spec fn resolve_prefix(repo_type: Seq<char>, repo: Seq<char>) -> Seq<char> {
    (if repo_type == "datasets"@ {
        "https://huggingface.co/datasets/"@
    } else if repo_type == "spaces"@ {
        "https://huggingface.co/spaces/"@
    } else {
        "https://huggingface.co/"@
    }) + repo + "/resolve/main/"@
}

/// The address of a file.
pub open spec fn remote_address(
    repo_type: Seq<char>,
    repo: Seq<char>,
    name: Seq<char>,
) -> Seq<char> {
    resolve_prefix(repo_type, repo) + name
}

/// The address of a file.
pub fn remote_url(repo_type: &str, repo: &str, name: &str) -> (r: String)
    ensures
        r@ == remote_address(repo_type@, repo@, name@),
{
    let mut r = String::new();
    if text::same_text(repo_type, "datasets") {
        r.append("https://huggingface.co/datasets/");
    } else if text::same_text(repo_type, "spaces") {
        r.append("https://huggingface.co/spaces/");
    } else {
        r.append("https://huggingface.co/");
    }
    r.append(repo);
    r.append("/resolve/main/");
    r.append(name);
    assert(r@ =~= remote_address(repo_type@, repo@, name@));
    r
}

/// The directory that a repository is stored in: its name with `_` for `/`.
pub fn target_dir(repo: &str) -> (r: String)
    ensures
        r@ == text::replaced(repo@, '/', '_'),
{
    text::replace_char(repo, '/', '_')
}

/// The path that a file is stored under.
pub open spec fn stored_path(dir: Seq<char>, name: Seq<char>) -> Seq<char> {
    dir + "/"@ + name
}

/// The path that a file is stored under.
pub fn local_path(dir: &str, name: &str) -> (r: String)
    ensures
        r@ == stored_path(dir@, name@),
{
    let mut r = text::join2(dir, "/");
    r.append(name);
    r
}

/// Two files of a repository have neither the address nor the path in common.
pub proof fn law_files_do_not_collide(
    repo_type: Seq<char>,
    repo: Seq<char>,
    a: Seq<char>,
    b: Seq<char>,
)
    requires
        a != b,
    ensures
        remote_address(repo_type, repo, a) != remote_address(repo_type, repo, b),
        stored_path(text::replaced(repo, '/', '_'), a) != stored_path(
            text::replaced(repo, '/', '_'),
            b,
        ),
{
    let remote = resolve_prefix(repo_type, repo);
    assert((remote + a).skip(remote.len() as int) =~= a);
    assert((remote + b).skip(remote.len() as int) =~= b);
    let local = text::replaced(repo, '/', '_') + "/"@;
    assert((local + a).skip(local.len() as int) =~= a);
    assert((local + b).skip(local.len() as int) =~= b);
}

// ---------------------------------------------------------------------------
// Known hashes
// ---------------------------------------------------------------------------

/// The hash that is known of each address. The last one said holds.
pub struct ShaMap {
    hashes: StringHashMap<String>,
}

impl View for ShaMap {
    type V = Map<Seq<char>, Seq<char>>;

    closed spec fn view(&self) -> Map<Seq<char>, Seq<char>> {
        self.hashes@.map_values(|hash: String| hash@)
    }
}

impl ShaMap {
    /// Nothing is known.
    pub fn new() -> (r: Self)
        ensures
            r@ == Map::<Seq<char>, Seq<char>>::empty(),
    {
        ShaMap { hashes: StringHashMap::new() }
    }

    /// Says the hash of an address.
    pub fn insert(&mut self, url: String, hash: String)
        ensures
            final(self)@ == old(self)@.insert(url@, hash@),
    {
        self.hashes.insert(url, hash);
    }

    /// The hash that is known of an address.
    pub fn get(&self, url: &str) -> (r: Option<String>)
        ensures
            r is Some <==> self@.dom().contains(url@),
            r matches Some(hash) ==> hash@ == self@[url@],
    {
        match self.hashes.get(url) {
            Some(hash) => Some(hash.clone()),
            None => None,
        }
    }
}

/// The hashes that the hub says of the files in large file storage.
pub open spec fn listed_hashes(
    files: Seq<RepoFile>,
    repo_type: Seq<char>,
    repo: Seq<char>,
) -> Map<Seq<char>, Seq<char>>
    decreases files.len(),
{
    if files.len() == 0 {
        Map::empty()
    } else {
        let before = listed_hashes(files.drop_last(), repo_type, repo);
        match files.last().lfs {
            Some(info) => before.insert(
                remote_address(repo_type, repo, files.last().rfilename@),
                info.oid@,
            ),
            None => before,
        }
    }
}

/// Collects the hashes that the hub says of the files in large file storage.
pub fn collect_hashes(files: &Vec<RepoFile>, repo_type: &str, repo: &str) -> (r: ShaMap)
    ensures
        r@ == listed_hashes(files@, repo_type@, repo@),
{
    let mut r = ShaMap::new();
    let mut i: usize = 0;
    while i < files.len()
        invariant
            i <= files@.len(),
            r@ == listed_hashes(files@.take(i as int), repo_type@, repo@),
        decreases files@.len() - i,
    {
        if let Some(info) = &files[i].lfs {
            let url = remote_url(repo_type, repo, &files[i].rfilename);
            r.insert(url, info.oid.clone());
        }
        i = i + 1;
        assert(files@.take(i as int).drop_last() =~= files@.take(i - 1));
    }
    assert(files@.take(i as int) =~= files@);
    r
}

// ---------------------------------------------------------------------------
// Expected hashes
// ---------------------------------------------------------------------------

/// The address of the hash of a file.
pub fn hash_url(url: &str) -> (r: String)
    ensures
        r@ == url@ + ".sha256"@,
{
    text::join2(url, ".sha256")
}

/// The hash in the answer to the request for the hash of a file: the first word
/// of its text. `text` is there if it could be read.
pub fn fetch_sha256_hash(status: u16, text: Option<String>) -> (r: Option<String>)
    ensures
        match text {
            Some(text) => if is_success(status) {
                match text::word_at_front(text@) {
                    Some(word) => r matches Some(hash) && hash@ == word,
                    None => r is None,
                }
            } else {
                r is None
            },
            None => r is None,
        },
{
    if !success(status) {
        return None;
    }
    match text {
        Some(text) => text::first_word(&text),
        None => None,
    }
}

/// A header of an answer.
pub enum HeaderText {
    /// It is not there.
    Absent,
    /// It is there, but holds other bytes than visible ASCII characters.
    Unreadable,
    /// It is there.
    Text(String),
}

/// The hash in an entity tag: without the quotes around it, and without the
/// marks `sha256:` in front of it.
pub open spec fn tag_hash(tag: Seq<char>) -> Seq<char> {
    text::strip_prefixes(text::strip(tag, text::Fringe::Quotes), "sha256:"@)
}

/// The hash that the headers of an answer give: that of the linked entity tag
/// if there is one, otherwise that of the entity tag.
pub fn get_sha256_from_etag(linked: HeaderText, etag: HeaderText) -> (r: Option<String>)
    ensures
        match linked {
            HeaderText::Text(tag) => r matches Some(hash) && hash@ == tag_hash(tag@),
            HeaderText::Unreadable => r is None,
            HeaderText::Absent => match etag {
                HeaderText::Text(tag) => r matches Some(hash) && hash@ == tag_hash(tag@),
                _ => r is None,
            },
        },
{
    let header = match linked {
        HeaderText::Absent => etag,
        _ => linked,
    };
    match header {
        HeaderText::Text(tag) => {
            let cleaned = text::strip_text(&tag, text::Fringe::Quotes);
            Some(text::strip_prefixes_text(&cleaned, "sha256:"))
        },
        _ => None,
    }
}

/// Where the search for the expected hash of a file stands.
pub enum ExpectedHash {
    /// It is known.
    Known(String),
    /// The hub is to be asked for the hash file of this address.
    AskFile(String),
    /// The hub is to be asked for the entity tag of this address.
    AskTag(String),
    /// There is none.
    Unknown,
}

/// Takes the answer of the hub: a hash ends the search, and without one the
/// entity tag is asked for behind the hash file, and nothing behind that.
pub fn hash_answered(asked: ExpectedHash, answer: Option<String>) -> (r: ExpectedHash)
    ensures
        match (asked, answer) {
            (ExpectedHash::Known(hash), _) => r == ExpectedHash::Known(hash),
            (_, Some(hash)) => r == ExpectedHash::Known(hash),
            (ExpectedHash::AskFile(url), None) => r == ExpectedHash::AskTag(url),
            _ => r is Unknown,
        },
{
    match asked {
        ExpectedHash::Known(hash) => ExpectedHash::Known(hash),
        ExpectedHash::AskFile(url) => match answer {
            Some(hash) => ExpectedHash::Known(hash),
            None => ExpectedHash::AskTag(url),
        },
        _ => match answer {
            Some(hash) => ExpectedHash::Known(hash),
            None => ExpectedHash::Unknown,
        },
    }
}

/// The expected hash of a file: the one that the hub lists, or else the one
/// that is known of its address, or else the hub is asked.
pub fn expected_hash(file: &RepoFile, sha_map: &ShaMap, repo_type: &str, repo: &str) -> (r:
    ExpectedHash)
    ensures
        ({
            let address = remote_address(repo_type@, repo@, file.rfilename@);
            match file.lfs {
                Some(info) => r matches ExpectedHash::Known(hash) && hash@ == info.oid@,
                None => if sha_map@.dom().contains(address) {
                    r matches ExpectedHash::Known(hash) && hash@ == sha_map@[address]
                } else {
                    r matches ExpectedHash::AskFile(url) && url@ == address
                },
            }
        }),
{
    if let Some(info) = &file.lfs {
        return ExpectedHash::Known(info.oid.clone());
    }
    let url = remote_url(repo_type, repo, &file.rfilename);
    match sha_map.get(&url) {
        Some(hash) => ExpectedHash::Known(hash),
        None => ExpectedHash::AskFile(url),
    }
}

/// What comes of holding a file to its hash.
pub open spec fn result_of(
    file: RepoFile,
    expected: String,
    actual: String,
) -> FileVerificationResult {
    FileVerificationResult {
        filename: file.rfilename,
        expected_hash: expected,
        actual_hash: actual,
        passed: actual@ == expected@,
    }
}

/// What came of holding a file to its hash.
pub fn verify_file(file: &RepoFile, expected: String, actual: String) -> (r: FileVerificationResult)
    ensures
        r == result_of(*file, expected, actual),
        r.passed == (actual@ == expected@),
{
    let passed = text::same_text(&actual, &expected);
    FileVerificationResult {
        filename: file.rfilename.clone(),
        expected_hash: expected,
        actual_hash: actual,
        passed,
    }
}

/// The results that there are, in their order.
pub open spec fn present(found: Seq<Option<FileVerificationResult>>) -> Seq<FileVerificationResult>
    decreases found.len(),
{
    if found.len() == 0 {
        Seq::empty()
    } else {
        let before = present(found.drop_last());
        match found.last() {
            Some(result) => before.push(result),
            None => before,
        }
    }
}

/// Whether one of those in `found` is there and has `k` of them in front of it
/// that are there.
pub open spec fn ranked(found: Seq<Option<FileVerificationResult>>, k: int) -> bool {
    exists|i: int|
        #![trigger found[i]]
        0 <= i < found.len() && found[i] is Some && present(found.take(i)).len() == k
}

/// Whether `results` holds just what there is in `found`, in the same order:
/// result number `i`, if it is there, comes behind those that are there in front
/// of it, and nothing else is in `results`.
pub open spec fn lists(
    results: Seq<FileVerificationResult>,
    found: Seq<Option<FileVerificationResult>>,
) -> bool {
    &&& forall|i: int|
        #![trigger found[i]]
        0 <= i < found.len() && found[i] is Some ==> {
            &&& present(found.take(i)).len() < results.len()
            &&& results[present(found.take(i)).len() as int] == found[i]->0
        }
    &&& forall|k: int| 0 <= k < results.len() ==> #[trigger] ranked(found, k)
}

proof fn lemma_present(found: Seq<Option<FileVerificationResult>>)
    ensures
        lists(present(found), found),
    decreases found.len(),
{
    if found.len() > 0 {
        let n = found.len() - 1;
        let front = found.drop_last();
        let results = present(found);
        lemma_present(front);
        assert(found.take(n) =~= front);
        assert forall|i: int| 0 <= i < n implies #[trigger] found.take(i) == front.take(i) by {
            assert(found.take(i) =~= front.take(i));
        }
        assert forall|i: int|
            #![trigger found[i]]
            0 <= i < found.len() && found[i] is Some implies present(found.take(i)).len()
            < results.len() && results[present(found.take(i)).len() as int] == found[i]->0 by {
            if i < n {
                assert(front[i] == found[i]);
            }
        }
        assert forall|k: int| 0 <= k < results.len() implies #[trigger] ranked(found, k) by {
            if k < present(front).len() {
                assert(ranked(front, k));
                let i = choose|i: int|
                    #![trigger front[i]]
                    0 <= i < front.len() && front[i] is Some && present(front.take(i)).len() == k;
                assert(found[i] == front[i]);
            } else {
                assert(found[n] is Some);
            }
        }
    }
}

/// What a look at a file showed.
pub enum FileLook {
    /// The file is not there.
    Missing,
    /// No hash is expected of it.
    NotExpected,
    /// Its hash could not be taken.
    Unreadable,
    /// The hash that it should have, and the one that it has.
    Hashed { expected: String, actual: String },
}

/// The result that a look at a file gives: one for a file that is there, of
/// which a hash is expected, and whose hash could be taken.
pub open spec fn look_result(file: RepoFile, look: FileLook) -> Option<FileVerificationResult> {
    match look {
        FileLook::Hashed { expected, actual } => Some(result_of(file, expected, actual)),
        _ => None,
    }
}

/// The results of holding files to their hashes, one file after the other.
pub struct Verification {
    pub results: Vec<FileVerificationResult>,
}

impl Verification {
    /// No file so far.
    pub fn new() -> (r: Self)
        ensures
            r.results@.len() == 0,
    {
        Verification { results: Vec::new() }
    }

    /// Takes what a look at the next file showed.
    pub fn take(&mut self, file: &RepoFile, look: FileLook)
        ensures
            match look {
                FileLook::Hashed { expected, actual } => final(self).results@
                    == old(self).results@.push(result_of(*file, expected, actual)),
                _ => final(self).results@ == old(self).results@,
            },
    {
        if let FileLook::Hashed { expected, actual } = look {
            self.results.push(verify_file(file, expected, actual));
        }
    }
}

/// What the steps of a verification leave once all `files` were taken, when the
/// looks at them showed `looks`.
pub open spec fn verification_results(files: Seq<RepoFile>, looks: Seq<FileLook>) -> Seq<
    FileVerificationResult,
>
    decreases files.len(),
{
    if files.len() == 0 {
        Seq::empty()
    } else {
        let before = verification_results(files.drop_last(), looks.drop_last());
        match looks.last() {
            FileLook::Hashed { expected, actual } => before.push(
                result_of(files.last(), expected, actual),
            ),
            _ => before,
        }
    }
}

/// A verification gives a result for just those files that are there, of which
/// a hash is expected and whose hash could be taken, in the order of the files.
pub proof fn law_verification_lists_hashed_files(files: Seq<RepoFile>, looks: Seq<FileLook>)
    requires
        files.len() == looks.len(),
    ensures
        lists(
            verification_results(files, looks),
            Seq::new(files.len(), |i: int| look_result(files[i], looks[i])),
        ),
{
    lemma_verification_results(files, looks);
    lemma_present(Seq::new(files.len(), |i: int| look_result(files[i], looks[i])));
}

proof fn lemma_verification_results(files: Seq<RepoFile>, looks: Seq<FileLook>)
    requires
        files.len() == looks.len(),
    ensures
        verification_results(files, looks) == present(
            Seq::new(files.len(), |i: int| look_result(files[i], looks[i])),
        ),
    decreases files.len(),
{
    if files.len() > 0 {
        let found = Seq::new(files.len(), |i: int| look_result(files[i], looks[i]));
        let fs = files.drop_last();
        let ls = looks.drop_last();
        lemma_verification_results(fs, ls);
        assert(found.drop_last() =~= Seq::new(fs.len(), |i: int| look_result(fs[i], ls[i])));
    }
}

// ---------------------------------------------------------------------------
// The download of a repository
// ---------------------------------------------------------------------------

/// How many files are fetched at the same time, how many slices a file is cut
/// into, and how large a slice is.
pub fn download_limits(config: &Option<crate::config::AppConfig>) -> (r: (u32, u32, Option<u64>))
    ensures
        r == (match *config {
            Some(config) => (config.max_parallel, config.max_chunk, config.max_size),
            None => (4u32, 4u32, None::<u64>),
        }),
{
    match config {
        Some(config) => (config.max_parallel, config.max_chunk, config.max_size),
        None => (4, 4, None),
    }
}

/// The type of the repository: `models` unless the settings say otherwise.
pub fn repo_type_of(config: &Option<crate::config::AppConfig>) -> (r: String)
    ensures
        r@ == (match *config {
            Some(config) => config.repo_type@,
            None => "models"@,
        }),
{
    match config {
        Some(config) => config.repo_type.clone(),
        None => "models".to_string(),
    }
}

/// What is to be done for a file.
pub enum FileStep {
    /// Nothing: it is there.
    Skip,
    /// It is there, and is to be held to this hash.
    Check(String),
    /// Fetch it.
    Download,
}

/// The first step for a file. One that is there is only looked at again if the
/// hub lists its hash and hashes are not skipped.
pub fn file_step(file: &RepoFile, exists: bool, skip_sha: bool) -> (r: FileStep)
    ensures
        match file.lfs {
            Some(info) if exists && !skip_sha => r matches FileStep::Check(hash) && hash@
                == info.oid@,
            _ => if exists {
                r is Skip
            } else {
                r is Download
            },
        },
{
    if !exists {
        return FileStep::Download;
    }
    if !skip_sha {
        if let Some(info) = &file.lfs {
            return FileStep::Check(info.oid.clone());
        }
    }
    FileStep::Skip
}

/// What came of taking the hash of a file.
pub enum HashOutcome {
    /// The hash.
    Digest(String),
    /// None: reading failed.
    Failed,
    /// None: it took too long.
    TimedOut,
}

/// Whether a file that is there is to be removed and fetched again, once it has
/// been held to its hash.
pub fn fetch_again(expected: &str, outcome: &HashOutcome) -> (r: bool)
    ensures
        r == (match *outcome {
            HashOutcome::Digest(actual) => actual@ != expected@,
            HashOutcome::Failed => true,
            HashOutcome::TimedOut => false,
        }),
{
    match outcome {
        HashOutcome::Digest(actual) => !text::same_text(actual, expected),
        HashOutcome::Failed => true,
        HashOutcome::TimedOut => false,
    }
}

/// The size above which a file is not held to its hash after the download.
pub const HASH_SIZE_LIMIT: i64 = 5368709120;

/// The hash that a file is held to once all files have been fetched: the one
/// that the hub lists, if the file is there and small enough.
pub open spec fn held_to(file: RepoFile, exists: bool) -> Option<String> {
    match file.lfs {
        Some(info) => if exists && info.size <= HASH_SIZE_LIMIT {
            Some(info.oid)
        } else {
            None
        },
        None => None,
    }
}

/// The hash that a file is held to once all files have been fetched, if it is.
pub fn final_check(file: &RepoFile, exists: bool) -> (r: Option<String>)
    ensures
        r == held_to(*file, exists),
{
    if let Some(info) = &file.lfs {
        if exists && info.size <= HASH_SIZE_LIMIT {
            return Some(info.oid.clone());
        }
    }
    None
}

/// What a file turned out to be.
#[derive(Clone, Copy, PartialEq, Eq, Structural, Debug)]
pub enum Verdict {
    /// It has its hash.
    Passed,
    /// It has another hash, and is to be removed.
    Corrupted,
    /// Its hash is not known.
    Unchecked,
}

/// The files that turned out not to have their hashes.
pub struct VerificationReport {
    pub failed: Vec<FileVerificationResult>,
}

impl VerificationReport {
    /// No file so far.
    pub fn new() -> (r: Self)
        ensures
            r.failed@.len() == 0,
    {
        VerificationReport { failed: Vec::new() }
    }

    /// Takes what came of taking the hash of a file that is held to `expected`.
    pub fn record(&mut self, file: &RepoFile, expected: String, outcome: HashOutcome) -> (r: Verdict)
        ensures
            r == (match outcome {
                HashOutcome::Digest(actual) => if actual@ == expected@ {
                    Verdict::Passed
                } else {
                    Verdict::Corrupted
                },
                _ => Verdict::Unchecked,
            }),
            r is Corrupted ==> final(self).failed@ == old(self).failed@.push(
                result_of(*file, expected, outcome->Digest_0),
            ),
            !(r is Corrupted) ==> final(self).failed@ == old(self).failed@,
    {
        match outcome {
            HashOutcome::Digest(actual) => {
                let result = verify_file(file, expected, actual);
                if result.passed {
                    Verdict::Passed
                } else {
                    self.failed.push(result);
                    Verdict::Corrupted
                }
            },
            _ => Verdict::Unchecked,
        }
    }

    /// How the download ends: with an error if a file did not have its hash.
    pub fn conclude(&self, files: &Vec<RepoFile>) -> (r: Result<String, String>)
        ensures
            r is Ok <==> self.failed@.len() == 0,
            r matches Ok(message) ==> message@ == (if lfs_count_of(files@) > 0 {
                "All "@ + text::decimal(lfs_count_of(files@)) + " LFS files passed hash verification!"@
            } else {
                "No LFS files to verify"@
            }),
            r matches Err(e) ==> e@
                == "Some LFS files failed hash verification. Please run the program again."@,
    {
        if self.failed.len() > 0 {
            return Err(
                "Some LFS files failed hash verification. Please run the program again.".to_string(),
            );
        }
        let count = lfs_count(files);
        if count > 0 {
            let number = text::decimal_text(count as u64);
            let mut message = text::join2("All ", &number);
            message.append(" LFS files passed hash verification!");
            Ok(message)
        } else {
            Ok("No LFS files to verify".to_string())
        }
    }
}

/// Whether a file is there, has its hash listed, is small enough, and turned
/// out to have another hash.
pub open spec fn corrupted(file: RepoFile, exists: bool, outcome: HashOutcome) -> bool {
    match (file.lfs, outcome) {
        (Some(info), HashOutcome::Digest(actual)) => exists && info.size <= HASH_SIZE_LIMIT
            && actual@ != info.oid@,
        _ => false,
    }
}

/// The failed list that the steps of the final verification leave: of each file
/// in turn it is said whether it is there, and what came of taking its hash.
pub open spec fn failed_list(
    files: Seq<RepoFile>,
    there: Seq<bool>,
    outcomes: Seq<HashOutcome>,
) -> Seq<FileVerificationResult>
    decreases files.len(),
{
    if files.len() == 0 {
        Seq::empty()
    } else {
        let before = failed_list(files.drop_last(), there.drop_last(), outcomes.drop_last());
        match (held_to(files.last(), there.last()), outcomes.last()) {
            (Some(expected), HashOutcome::Digest(actual)) => if actual@ == expected@ {
                before
            } else {
                before.push(result_of(files.last(), expected, actual))
            },
            _ => before,
        }
    }
}

/// The entry of a corrupted file in the failed list.
pub open spec fn failed_entry(
    file: RepoFile,
    exists: bool,
    outcome: HashOutcome,
) -> Option<FileVerificationResult> {
    if corrupted(file, exists, outcome) {
        Some(result_of(file, file.lfs->0.oid, outcome->Digest_0))
    } else {
        None
    }
}

proof fn lemma_failed_list(files: Seq<RepoFile>, there: Seq<bool>, outcomes: Seq<HashOutcome>)
    requires
        files.len() == there.len() == outcomes.len(),
    ensures
        failed_list(files, there, outcomes) == present(
            Seq::new(files.len(), |i: int| failed_entry(files[i], there[i], outcomes[i])),
        ),
    decreases files.len(),
{
    if files.len() > 0 {
        let found = Seq::new(files.len(), |i: int| failed_entry(files[i], there[i], outcomes[i]));
        let fs = files.drop_last();
        let es = there.drop_last();
        let os = outcomes.drop_last();
        lemma_failed_list(fs, es, os);
        assert(found.drop_last() =~= Seq::new(
            fs.len(),
            |i: int| failed_entry(fs[i], es[i], os[i]),
        ));
    }
}

/// The final verification lists just the corrupted files, in their order, each
/// with both hashes; so that it fails if and only if there is one.
pub proof fn law_final_verification_fails_iff_corrupted(
    files: Seq<RepoFile>,
    there: Seq<bool>,
    outcomes: Seq<HashOutcome>,
)
    requires
        files.len() == there.len() == outcomes.len(),
    ensures
        lists(
            failed_list(files, there, outcomes),
            Seq::new(files.len(), |i: int| failed_entry(files[i], there[i], outcomes[i])),
        ),
        failed_list(files, there, outcomes).len() > 0 <==> exists|i: int|
            0 <= i < files.len() && #[trigger] corrupted(files[i], there[i], outcomes[i]),
{
    let found = Seq::new(files.len(), |i: int| failed_entry(files[i], there[i], outcomes[i]));
    let failed = failed_list(files, there, outcomes);
    lemma_failed_list(files, there, outcomes);
    lemma_present(found);
    if failed.len() > 0 {
        assert(ranked(found, 0));
        let i = choose|i: int|
            #![trigger found[i]]
            0 <= i < found.len() && found[i] is Some && present(found.take(i)).len() == 0;
        assert(corrupted(files[i], there[i], outcomes[i]));
    }
    assert forall|i: int|
        0 <= i < files.len() && #[trigger] corrupted(
            files[i],
            there[i],
            outcomes[i],
        ) implies failed.len() > 0 by {
        assert(found[i] is Some);
    }
}

// ---------------------------------------------------------------------------
// Laws
// ---------------------------------------------------------------------------


proof fn lemma_files_in_append(a: Seq<ApiFileInfo>, b: Seq<ApiFileInfo>)
    ensures
        files_in(a + b) == files_in(a) + files_in(b),
        folders_in(a + b) == folders_in(a) + folders_in(b),
    decreases b.len(),
{
    if b.len() == 0 {
        assert(a + b =~= a);
        assert(files_in(a) + files_in(b) =~= files_in(a));
        assert(folders_in(a) + folders_in(b) =~= folders_in(a));
    } else {
        assert((a + b).drop_last() =~= a + b.drop_last());
        assert((a + b).last() == b.last());
        lemma_files_in_append(a, b.drop_last());
        assert(files_in(a + b) =~= files_in(a) + files_in(b));
        assert(folders_in(a + b) =~= folders_in(a) + folders_in(b));
    }
}

/// The files among some entries are those in front of an entry, the entry itself
/// if its type is `file`, with its path, its large file storage and its size, and
/// those behind it. Likewise its directories, which are the entries of the type
/// `directory`.
pub proof fn law_listing_begins_with_every_entry(
    front: Seq<ApiFileInfo>,
    entry: ApiFileInfo,
    back: Seq<ApiFileInfo>,
)
    ensures
        files_in(front.push(entry) + back) == files_in(front) + (if entry.file_type@ == "file"@ {
            seq![RepoFile { rfilename: entry.path, lfs: entry.lfs, size: entry.size }]
        } else {
            Seq::empty()
        }) + files_in(back),
        folders_in(front.push(entry) + back) == folders_in(front) + (if entry.file_type@
            == "directory"@ {
            seq![entry]
        } else {
            Seq::empty()
        }) + folders_in(back),
        files_in(Seq::empty()) == Seq::<RepoFile>::empty(),
        folders_in(Seq::empty()) == Seq::<ApiFileInfo>::empty(),
{
    let longer = front.push(entry);
    assert(longer.drop_last() =~= front);
    lemma_files_in_append(longer, back);
    assert(files_in(longer) =~= files_in(front) + (if entry.file_type@ == "file"@ {
        seq![RepoFile { rfilename: entry.path, lfs: entry.lfs, size: entry.size }]
    } else {
        Seq::empty()
    }));
    assert(folders_in(longer) =~= folders_in(front) + (if entry.file_type@ == "directory"@ {
        seq![entry]
    } else {
        Seq::empty()
    }));
}

/// Every entry of the type `file` in a directory is listed, with its path, its
/// large file storage and its size, whatever these are.
pub proof fn law_every_file_entry_is_listed(
    entries: Seq<ApiFileInfo>,
    reply: spec_fn(Seq<char>) -> Option<Seq<ApiFileInfo>>,
    depth: nat,
    i: int,
)
    requires
        0 <= i < entries.len(),
        entries[i].file_type@ == "file"@,
    ensures
        files_in(entries).contains(
            (RepoFile { rfilename: entries[i].path, lfs: entries[i].lfs, size: entries[i].size }),
        ),
        files_below(entries, reply, depth).contains(
            (RepoFile { rfilename: entries[i].path, lfs: entries[i].lfs, size: entries[i].size }),
        ),
{
    let file = RepoFile {
        rfilename: entries[i].path,
        lfs: entries[i].lfs,
        size: entries[i].size,
    };
    let front = entries.take(i);
    let back = entries.skip(i + 1);
    assert(front.push(entries[i]) + back =~= entries);
    law_listing_begins_with_every_entry(front, entries[i], back);
    assert(files_in(entries)[files_in(front).len() as int] == file);
    law_walk_goes_entry_by_entry(front, entries[i], back, reply, depth);
    lemma_kinds_differ(entries[i]);
    assert(files_below(entries, reply, depth)[files_below(front, reply, depth).len() as int]
        == file);
}

proof fn lemma_files_below_concat(
    a: Seq<ApiFileInfo>,
    b: Seq<ApiFileInfo>,
    reply: spec_fn(Seq<char>) -> Option<Seq<ApiFileInfo>>,
    depth: nat,
)
    ensures
        files_below(a + b, reply, depth) == files_below(a, reply, depth) + files_below(
            b,
            reply,
            depth,
        ),
    decreases a.len(),
{
    if a.len() == 0 {
        assert(a + b =~= b);
        assert(files_below(a, reply, depth) + files_below(b, reply, depth) =~= files_below(
            b,
            reply,
            depth,
        ));
    } else {
        lemma_files_below_concat(a.drop_first(), b, reply, depth);
        assert((a + b).drop_first() =~= a.drop_first() + b);
        assert((a + b).first() == a.first());
        assert(files_below(a + b, reply, depth) =~= files_below(a, reply, depth) + files_below(
            b,
            reply,
            depth,
        ));
    }
}

/// The files below some entries are those below the entries in front of one, then
/// that one itself if it is a file, or all files below it if it is a directory,
/// and then those below the entries behind it. A directory that the hub does not
/// list has none.
pub proof fn law_walk_goes_entry_by_entry(
    front: Seq<ApiFileInfo>,
    entry: ApiFileInfo,
    back: Seq<ApiFileInfo>,
    reply: spec_fn(Seq<char>) -> Option<Seq<ApiFileInfo>>,
    depth: nat,
)
    ensures
        files_below(front.push(entry) + back, reply, depth) == files_below(front, reply, depth) + (
        if entry.file_type@ == "file"@ {
            seq![RepoFile { rfilename: entry.path, lfs: entry.lfs, size: entry.size }]
        } else if entry.file_type@ == "directory"@ && depth > 0 {
            match reply(entry.path@) {
                Some(inner) => files_below(inner, reply, (depth - 1) as nat),
                None => Seq::empty(),
            }
        } else {
            Seq::empty()
        }) + files_below(back, reply, depth),
        files_below(Seq::empty(), reply, depth) == Seq::<RepoFile>::empty(),
{
    let one = seq![entry];
    assert(front.push(entry) + back =~= front + one + back);
    lemma_files_below_concat(front + one, back, reply, depth);
    lemma_files_below_concat(front, one, reply, depth);
    lemma_kinds_differ(entry);
    assert(one.drop_first() =~= Seq::empty());
    let none = Seq::<ApiFileInfo>::empty();
    assert(files_below(none, reply, depth) =~= Seq::empty());
    let own = if entry.file_type@ == "file"@ {
        seq![RepoFile { rfilename: entry.path, lfs: entry.lfs, size: entry.size }]
    } else if entry.file_type@ == "directory"@ && depth > 0 {
        match reply(entry.path@) {
            Some(inner) => files_below(inner, reply, (depth - 1) as nat),
            None => Seq::empty(),
        }
    } else {
        Seq::empty()
    };
    if is_directory(entry) && depth > 0 && reply(entry.path@) is None {
        assert(files_below(contents(reply, entry.path@), reply, (depth - 1) as nat)
            =~= Seq::empty());
    }
    assert(files_below(one, reply, depth) =~= own);
}

/// The walk begins with the files of the top directory and goes on below its
/// directories: together these are all files below the top directory, as often
/// as they are there.
pub proof fn law_walk_begins_with_the_top_directory(
    root: Seq<ApiFileInfo>,
    reply: spec_fn(Seq<char>) -> Option<Seq<ApiFileInfo>>,
    depth: nat,
)
    ensures
        (files_in(root) + files_below(folders_in(root), reply, depth)).to_multiset() == files_below(
            root,
            reply,
            depth,
        ).to_multiset(),
    decreases root.len(),
{
    broadcast use vstd::seq_lib::group_to_multiset_ensures;

    if root.len() > 0 {
        let front = root.drop_last();
        let entry = root.last();
        let none = Seq::<ApiFileInfo>::empty();
        assert(root =~= front.push(entry) + none);
        law_walk_begins_with_the_top_directory(front, reply, depth);
        law_listing_begins_with_every_entry(front, entry, none);
        law_walk_goes_entry_by_entry(front, entry, none, reply, depth);
        law_walk_goes_entry_by_entry(folders_in(front), entry, none, reply, depth);
        lemma_kinds_differ(entry);
        let below = files_below(front, reply, depth);
        let top = files_in(front);
        let deep = files_below(folders_in(front), reply, depth);
        let empty = Seq::<RepoFile>::empty();
        assert(files_below(root, reply, depth) =~= below + files_below(seq![entry], reply, depth))
            by {
            lemma_files_below_concat(front, seq![entry], reply, depth);
            assert(front + seq![entry] =~= root);
        }
        let own = files_below(seq![entry], reply, depth);
        vstd::seq_lib::lemma_multiset_commutative(below, own);
        vstd::seq_lib::lemma_multiset_commutative(top, deep);
        if is_file(entry) {
            assert(files_in(root) =~= top + own) by {
                assert(own =~= seq![file_of(entry)]) by {
                    law_walk_goes_entry_by_entry(none, entry, none, reply, depth);
                    assert(none.push(entry) + none =~= seq![entry]);
                }
            }
            assert(folders_in(root) =~= folders_in(front));
            vstd::seq_lib::lemma_multiset_commutative(top + own, deep);
            vstd::seq_lib::lemma_multiset_commutative(top, own);
            assert((files_in(root) + deep).to_multiset() =~= files_below(
                root,
                reply,
                depth,
            ).to_multiset());
        } else if is_directory(entry) {
            assert(files_in(root) =~= top);
            assert(folders_in(root) =~= folders_in(front) + seq![entry]);
            lemma_files_below_concat(folders_in(front), seq![entry], reply, depth);
            vstd::seq_lib::lemma_multiset_commutative(top, deep + own);
            vstd::seq_lib::lemma_multiset_commutative(deep, own);
            assert((top + (deep + own)).to_multiset() =~= files_below(
                root,
                reply,
                depth,
            ).to_multiset());
        } else {
            law_walk_goes_entry_by_entry(none, entry, none, reply, depth);
            assert(none.push(entry) + none =~= seq![entry]);
            assert(own =~= empty);
            assert(files_in(root) =~= top);
            assert(folders_in(root) =~= folders_in(front));
            assert(files_below(root, reply, depth) =~= below);
        }
    } else {
        assert(root =~= Seq::empty());
        assert(files_in(root) + files_below(folders_in(root), reply, depth) =~= files_below(
            root,
            reply,
            depth,
        ));
    }
}

/// The walk goes on to the first directory among the entries: it takes up the
/// files in front of it, asks for it by its path, and keeps what is behind it.
/// Without a directory it takes up all files and is at its end.
pub proof fn law_walk_goes_to_the_first_directory(
    front: Seq<ApiFileInfo>,
    directory: ApiFileInfo,
    back: Seq<ApiFileInfo>,
)
    requires
        forall|i: int| 0 <= i < front.len() ==> (#[trigger] front[i]).file_type@ != "directory"@,
        directory.file_type@ == "directory"@,
    ensures
        advance(front.push(directory) + back) == (files_in(front), Some(directory.path), back),
        advance(front) == (files_in(front), None::<String>, Seq::<ApiFileInfo>::empty()),
    decreases front.len(),
{
    let whole = front.push(directory) + back;
    if front.len() == 0 {
        assert(whole.drop_first() =~= back);
        assert(files_in(front) =~= Seq::empty());
    } else {
        let first = front[0];
        let rest = front.drop_first();
        assert forall|i: int| 0 <= i < rest.len() implies (#[trigger] rest[i]).file_type@
            != "directory"@ by {
            assert(rest[i] == front[i + 1]);
        }
        law_walk_goes_to_the_first_directory(rest, directory, back);
        assert(whole.drop_first() =~= rest.push(directory) + back);
        assert(whole.first() == first);
        lemma_files_in_append(seq![first], rest);
        assert(seq![first] + rest =~= front);
        let none = Seq::<ApiFileInfo>::empty();
        law_listing_begins_with_every_entry(none, first, none);
        assert(none.push(first) + none =~= seq![first]);
        lemma_kinds_differ(first);
        assert(advance(whole).0 =~= files_in(front));
        assert(advance(front).0 =~= files_in(front));
    }
}

/// Sorted files stand in the order of the codes of their names: where two names
/// differ first, the one that stands in front has the smaller code.
pub proof fn law_sorted_names_ascend(
    files: Seq<RepoFile>,
    i: int,
    j: int,
    common: Seq<char>,
    x: char,
    y: char,
    a: Seq<char>,
    b: Seq<char>,
)
    requires
        ordered(files),
        0 <= i < j < files.len(),
    ensures
        files[i].rfilename@ == common.push(x) + a && files[j].rfilename@ == common.push(y) + b && x
            != y ==> (x as u32) < (y as u32),
        files[j].rfilename@ == common ==> files[i].rfilename@ != common.push(x) + a,
{
    text::law_first_difference_decides(common, y, x, b, a);
    assert(!text::precedes(files[j].rfilename@, files[i].rfilename@));
}

/// The files of one name among two lists are those among the first and then those
/// among the second; a file alone is found under its name, and under no other.
pub proof fn law_named_goes_file_by_file(a: Seq<RepoFile>, file: RepoFile, name: Seq<char>)
    ensures
        named(a.push(file), name) == (if file.rfilename@ == name {
            named(a, name).push(file)
        } else {
            named(a, name)
        }),
        named(Seq::empty(), name) == Seq::<RepoFile>::empty(),
{
    assert(a.push(file).drop_last() =~= a);
}

/// A further file counts as one in large file storage if and only if it is kept
/// there.
pub proof fn law_lfs_count_goes_file_by_file(files: Seq<RepoFile>, file: RepoFile)
    ensures
        lfs_count_of(files.push(file)) == lfs_count_of(files) + (if file.lfs is Some {
            1int
        } else {
            0int
        }),
        lfs_count_of(Seq::empty()) == 0,
{
    assert(files.push(file).drop_last() =~= files);
}

/// The part of an address in front of the repository, by the type of the
/// repository.
pub open spec fn hub_part(repo_type: Seq<char>) -> Seq<char> {
    if repo_type == "datasets"@ {
        "https://huggingface.co/datasets/"@
    } else if repo_type == "spaces"@ {
        "https://huggingface.co/spaces/"@
    } else {
        "https://huggingface.co/"@
    }
}

/// The address of a file ends in the repository and the name of the file, both
/// as they were given, with `/resolve/main/` between them; in front of them
/// stands the hub, with the type of the repository if it is not one of models.
pub proof fn law_address_holds_repository_and_name(
    repo_type: Seq<char>,
    repo: Seq<char>,
    name: Seq<char>,
)
    ensures
        ({
            let end = repo + "/resolve/main/"@ + name;
            let address = remote_address(repo_type, repo, name);
            &&& address.len() == hub_part(repo_type).len() + end.len()
            &&& address.take(hub_part(repo_type).len() as int) == hub_part(repo_type)
            &&& address.skip(hub_part(repo_type).len() as int) == end
        }),
        repo_type == "datasets"@ ==> remote_address(repo_type, repo, name)
            == "https://huggingface.co/datasets/"@ + repo + "/resolve/main/"@ + name,
        repo_type == "spaces"@ ==> remote_address(repo_type, repo, name)
            == "https://huggingface.co/spaces/"@ + repo + "/resolve/main/"@ + name,
        repo_type != "datasets"@ && repo_type != "spaces"@ ==> remote_address(repo_type, repo, name)
            == "https://huggingface.co/"@ + repo + "/resolve/main/"@ + name,
{
    let end = repo + "/resolve/main/"@ + name;
    let hub = hub_part(repo_type);
    let address = remote_address(repo_type, repo, name);
    lemma_type_names_differ();
    assert(address =~= hub + end);
    assert(address.take(hub.len() as int) =~= hub);
    assert(address.skip(hub.len() as int) =~= end);
}

proof fn lemma_type_names_differ()
    ensures
        "datasets"@ != "spaces"@,
{
    reveal_strlit("datasets");
    reveal_strlit("spaces");
    assert("datasets"@.len() != "spaces"@.len());
}

/// Two repositories of one type never share the address of a file of one name,
/// and neither do two files of one repository.
pub proof fn law_addresses_tell_repositories_apart(
    repo_type: Seq<char>,
    a: Seq<char>,
    b: Seq<char>,
    name: Seq<char>,
)
    requires
        a != b,
    ensures
        remote_address(repo_type, a, name) != remote_address(repo_type, b, name),
        remote_address(repo_type, name, a) != remote_address(repo_type, name, b),
        tree_address(repo_type, a, Seq::empty()) != tree_address(repo_type, b, Seq::empty()),
        folder_address(repo_type, name, a) != folder_address(repo_type, name, b),
{
    law_address_holds_repository_and_name(repo_type, a, name);
    law_address_holds_repository_and_name(repo_type, b, name);
    law_address_holds_repository_and_name(repo_type, name, a);
    law_address_holds_repository_and_name(repo_type, name, b);
    let middle = "/resolve/main/"@;
    if a + middle + name == b + middle + name {
        assert((a + middle + name).len() == a.len() + middle.len() + name.len());
        assert((b + middle + name).len() == b.len() + middle.len() + name.len());
        assert(a =~= (a + middle + name).take(a.len() as int));
        assert(b =~= (b + middle + name).take(b.len() as int));
    }
    let front = name + middle;
    assert((front + a).skip(front.len() as int) =~= a);
    assert((front + b).skip(front.len() as int) =~= b);
    let api = "https://huggingface.co/api/"@ + repo_type + "/"@;
    let tree = "/tree/main"@;
    if api + a + tree == api + b + tree {
        assert((api + a + tree).len() == api.len() + a.len() + tree.len());
        assert((api + b + tree).len() == api.len() + b.len() + tree.len());
        assert(a =~= (api + a + tree).subrange(api.len() as int, (api.len() + a.len()) as int));
        assert(b =~= (api + b + tree).subrange(api.len() as int, (api.len() + b.len()) as int));
    }
    let folder = api + name + "/tree/main/"@;
    assert((folder + a).skip(folder.len() as int) =~= a);
    assert((folder + b).skip(folder.len() as int) =~= b);
}

/// The listings lie below the programming interface of the hub, by the type and
/// the repository as they were given; a directory is named behind them, and a
/// place to go on from as a parameter.
pub proof fn law_listings_lie_below_the_interface(
    repo_type: Seq<char>,
    repo: Seq<char>,
    path: Seq<char>,
)
    ensures
        ({
            let tree = "https://huggingface.co/api/"@ + repo_type + "/"@ + repo + "/tree/main"@;
            &&& tree_address(repo_type, repo, Seq::empty()) == tree
            &&& path.len() > 0 ==> tree_address(repo_type, repo, path) == tree + "?path="@ + path
            &&& folder_address(repo_type, repo, path) == tree + seq!['/'] + path
        }),
{
    reveal_strlit("/tree/main");
    reveal_strlit("/tree/main/");
    assert("/tree/main/"@ =~= "/tree/main"@ + seq!['/']);
    let tree = "https://huggingface.co/api/"@ + repo_type + "/"@ + repo + "/tree/main"@;
    assert(folder_address(repo_type, repo, path) =~= tree + seq!['/'] + path);
}

/// A file is stored under its name, behind the directory and one slash.
pub proof fn law_stored_path_ends_in_the_name(dir: Seq<char>, name: Seq<char>)
    ensures
        stored_path(dir, name) == dir.push('/') + name,
{
    reveal_strlit("/");
    assert(stored_path(dir, name) =~= dir.push('/') + name);
}

/// The statuses of success are those of the two hundreds.
pub proof fn law_success_is_two_hundred(status: u16)
    ensures
        is_success(status) <==> status / 100 == 2,
{
}

/// Collecting goes file by file: a file in large file storage says its hash of
/// its address, any other file says nothing.
pub proof fn law_hashes_are_collected_file_by_file(
    files: Seq<RepoFile>,
    file: RepoFile,
    repo_type: Seq<char>,
    repo: Seq<char>,
)
    ensures
        listed_hashes(files.push(file), repo_type, repo) == (match file.lfs {
            Some(info) => listed_hashes(files, repo_type, repo).insert(
                remote_address(repo_type, repo, file.rfilename@),
                info.oid@,
            ),
            None => listed_hashes(files, repo_type, repo),
        }),
        listed_hashes(Seq::empty(), repo_type, repo) == Map::<Seq<char>, Seq<char>>::empty(),
{
    assert(files.push(file).drop_last() =~= files);
}

/// A file in large file storage whose name no later file has is known by its
/// hash.
pub proof fn law_collected_hash_is_the_listed_one(
    front: Seq<RepoFile>,
    file: RepoFile,
    back: Seq<RepoFile>,
    repo_type: Seq<char>,
    repo: Seq<char>,
)
    requires
        file.lfs is Some,
        forall|i: int|
            0 <= i < back.len() ==> (#[trigger] back[i]).rfilename@ != file.rfilename@,
    ensures
        ({
            let known = listed_hashes(front.push(file) + back, repo_type, repo);
            let address = remote_address(repo_type, repo, file.rfilename@);
            known.dom().contains(address) && known[address] == file.lfs->0.oid@
        }),
    decreases back.len(),
{
    let files = front.push(file) + back;
    if back.len() == 0 {
        assert(files =~= front.push(file));
        law_hashes_are_collected_file_by_file(front, file, repo_type, repo);
    } else {
        let rest = back.drop_last();
        assert forall|i: int| 0 <= i < rest.len() implies (#[trigger] rest[i]).rfilename@
            != file.rfilename@ by {
            assert(rest[i] == back[i]);
        }
        law_collected_hash_is_the_listed_one(front, file, rest, repo_type, repo);
        assert(files =~= (front.push(file) + rest).push(back.last()));
        law_hashes_are_collected_file_by_file(
            front.push(file) + rest,
            back.last(),
            repo_type,
            repo,
        );
        assert(back.last() == back[back.len() - 1]);
        law_files_do_not_collide(repo_type, repo, back.last().rfilename@, file.rfilename@);
    }
}

proof fn lemma_strip_quotes(hash: Seq<char>)
    requires
        hash.len() > 0 ==> hash.first() != '"' && hash.last() != '"',
    ensures
        text::strip(hash, text::Fringe::Quotes) == hash,
        text::strip(seq!['"'] + hash + seq!['"'], text::Fringe::Quotes) == hash,
{
    let fringe = text::Fringe::Quotes;
    let tag = seq!['"'] + hash + seq!['"'];
    let rest = hash.push('"');
    assert(tag.drop_first() =~= rest);
    assert(tag.first() == '"');
    if hash.len() > 0 {
        assert(rest.first() == hash.first());
        assert(text::strip_start(rest, fringe) == rest);
        assert(rest.drop_last() =~= hash);
        assert(text::strip_end(hash, fringe) == hash);
    } else {
        assert(rest.drop_first() =~= hash);
        assert(text::strip_start(hash, fringe) == hash);
        assert(text::strip_start(rest, fringe) == hash);
        assert(text::strip_end(hash, fringe) == hash);
    }
}

/// An entity tag holds its hash as it is, in quotes or not, behind the mark
/// `sha256:` or not.
pub proof fn law_tag_holds_the_hash(hash: Seq<char>)
    requires
        hash.len() > 0,
        hash.first() != '"',
        hash.last() != '"',
        !"sha256:"@.is_prefix_of(hash),
    ensures
        tag_hash(hash) == hash,
        tag_hash(seq!['"'] + hash + seq!['"']) == hash,
        tag_hash("sha256:"@ + hash) == hash,
        tag_hash(seq!['"'] + ("sha256:"@ + hash) + seq!['"']) == hash,
{
    reveal_strlit("sha256:");
    let marked = "sha256:"@ + hash;
    lemma_strip_quotes(hash);
    assert(marked.first() == 's');
    assert(marked.last() == hash.last());
    lemma_strip_quotes(marked);
    text::law_strip_prefixes_step(hash, "sha256:"@);
}

/// The hash in any entity tag is what is left of it once the quotes around it,
/// and then the marks `sha256:` in front of it, are taken off.
pub proof fn law_tag_is_cleaned_in_two_steps(tag: Seq<char>)
    ensures
        tag_hash(tag) == text::strip_prefixes(
            text::strip(tag, text::Fringe::Quotes),
            seq!['s', 'h', 'a', '2', '5', '6', ':'],
        ),
{
    reveal_strlit("sha256:");
    assert("sha256:"@ =~= seq!['s', 'h', 'a', '2', '5', '6', ':']);
}

/// A verification result names the file and both hashes as they are, and says
/// that the file passed if and only if the two hashes are the same text.
pub proof fn law_passed_means_the_same_hash(file: RepoFile, expected: String, actual: String)
    ensures
        ({
            let result = result_of(file, expected, actual);
            &&& result.passed <==> result.actual_hash@ == result.expected_hash@
            &&& result.filename@ == file.rfilename@
            &&& result.expected_hash == expected
            &&& result.actual_hash == actual
        }),
{
}

/// A verification goes file by file: it adds a result for a file whose hash was
/// taken, which passed if and only if the two hashes are the same, and nothing
/// for any other.
pub proof fn law_verification_goes_file_by_file(
    files: Seq<RepoFile>,
    looks: Seq<FileLook>,
    file: RepoFile,
    look: FileLook,
)
    requires
        files.len() == looks.len(),
    ensures
        ({
            let before = verification_results(files, looks);
            let after = verification_results(files.push(file), looks.push(look));
            match look {
                FileLook::Hashed { expected, actual } => {
                    &&& after.len() == before.len() + 1
                    &&& after.drop_last() == before
                    &&& after.last().filename == file.rfilename
                    &&& after.last().expected_hash == expected
                    &&& after.last().actual_hash == actual
                    &&& after.last().passed <==> actual@ == expected@
                },
                _ => after == before,
            }
        }),
        look_result(file, look) is Some <==> look is Hashed,
{
    assert(files.push(file).drop_last() =~= files);
    assert(looks.push(look).drop_last() =~= looks);
    let before = verification_results(files, looks);
    let after = verification_results(files.push(file), looks.push(look));
    if look is Hashed {
        assert(after.drop_last() =~= before);
    }
}

/// After the download a file is held to the hash that the hub lists, if it is
/// there and has at most five gibibytes, and to none otherwise.
pub proof fn law_small_listed_files_are_checked(file: RepoFile, exists: bool)
    ensures
        held_to(file, exists) is Some <==> exists && (file.lfs matches Some(info) && info.size
            <= 5 * 1024 * 1024 * 1024),
        held_to(file, exists) matches Some(hash) ==> file.lfs matches Some(info) && hash == info.oid,
{
}

/// The final verification fails if and only if some file is there, has its hash
/// listed, has at most five gibibytes, and its hash, which could be taken, is
/// another text than the listed one.
pub proof fn law_download_fails_iff_a_hash_differs(
    files: Seq<RepoFile>,
    there: Seq<bool>,
    outcomes: Seq<HashOutcome>,
)
    requires
        files.len() == there.len() == outcomes.len(),
    ensures
        failed_list(files, there, outcomes).len() > 0 <==> exists|i: int|
            #![trigger files[i]]
            {
                &&& 0 <= i < files.len()
                &&& there[i]
                &&& files[i].lfs is Some
                &&& files[i].lfs->0.size <= 5 * 1024 * 1024 * 1024
                &&& outcomes[i] is Digest
                &&& outcomes[i]->Digest_0@ != files[i].lfs->0.oid@
            },
{
    law_final_verification_fails_iff_corrupted(files, there, outcomes);
    if failed_list(files, there, outcomes).len() > 0 {
        let i = choose|i: int|
            0 <= i < files.len() && #[trigger] corrupted(files[i], there[i], outcomes[i]);
        assert(files[i].lfs is Some);
    }
    assert forall|i: int|
        #![trigger files[i]]
        0 <= i < files.len() && there[i] && files[i].lfs is Some && files[i].lfs->0.size <= 5 * 1024
            * 1024 * 1024 && outcomes[i] is Digest && outcomes[i]->Digest_0@
            != files[i].lfs->0.oid@ implies failed_list(files, there, outcomes).len() > 0 by {
        assert(corrupted(files[i], there[i], outcomes[i]));
    }
}

/// A file that is there is fetched again if its hash is another text than the
/// expected one, whatever the two are, or could not be read; not if it is the
/// same, or took too long.
pub proof fn law_other_hash_is_fetched_again(expected: &str, outcome: HashOutcome, again: bool)
    requires
        call_ensures(fetch_again, (expected, &outcome), again),
    ensures
        outcome matches HashOutcome::Digest(actual) ==> (again <==> actual@ != expected@),
        outcome is Failed ==> again,
        outcome is TimedOut ==> !again,
{
}

/// A file that is verified passed if and only if its hash is the expected one,
/// character by character.
pub proof fn law_verified_file_passed_iff_hashes_agree(
    file: RepoFile,
    expected: String,
    actual: String,
    r: FileVerificationResult,
)
    requires
        call_ensures(verify_file, (&file, expected, actual), r),
    ensures
        r.passed ==> actual@.len() == expected@.len() && forall|i: int|
            0 <= i < actual@.len() ==> #[trigger] actual@[i] == expected@[i],
        !r.passed ==> actual@.len() != expected@.len() || exists|i: int|
            0 <= i < actual@.len() && #[trigger] actual@[i] != expected@[i],
        r.filename@ == file.rfilename@,
        r.expected_hash@ == expected@,
        r.actual_hash@ == actual@,
{
    if !r.passed && actual@.len() == expected@.len() {
        if forall|i: int| 0 <= i < actual@.len() ==> #[trigger] actual@[i] == expected@[i] {
            assert(actual@ =~= expected@);
        }
    }
}

/// The address of a file is that of the repository and the file as they were
/// given.
pub proof fn law_remote_url_is_the_address(repo_type: &str, repo: &str, name: &str, url: String)
    requires
        call_ensures(remote_url, (repo_type, repo, name), url),
    ensures
        url@ == hub_part(repo_type@) + repo@ + "/resolve/main/"@ + name@,
{
    law_address_holds_repository_and_name(repo_type@, repo@, name@);
    assert(url@ =~= hub_part(repo_type@) + repo@ + "/resolve/main/"@ + name@);
}

/// The first listing is that of the repository, and the listing of a directory
/// that of the directory, by type, repository and path as they were given.
pub proof fn law_listing_urls(
    repo_type: &str,
    repo: &str,
    path: &str,
    first: String,
    more: String,
    folder: String,
    none: &str,
)
    requires
        none@.len() == 0,
        path@.len() > 0,
        call_ensures(tree_url, (repo_type, repo, none), first),
        call_ensures(tree_url, (repo_type, repo, path), more),
        call_ensures(folder_url, (repo_type, repo, path), folder),
    ensures
        first@ == "https://huggingface.co/api/"@ + repo_type@ + "/"@ + repo@ + "/tree/main"@,
        more@ == first@ + "?path="@ + path@,
        folder@ == first@ + seq!['/'] + path@,
{
    assert(none@ =~= Seq::empty());
    law_listings_lie_below_the_interface(repo_type@, repo@, path@);
}

/// A repository is stored in a directory of its name, with an underscore for
/// every slash; and a file in a directory under its name.
pub proof fn law_where_a_repository_is_stored(
    repo: &str,
    dir: String,
    place: &str,
    name: &str,
    path: String,
)
    requires
        call_ensures(target_dir, (repo,), dir),
        call_ensures(local_path, (place, name), path),
    ensures
        dir@.len() == repo@.len(),
        forall|i: int|
            #![trigger repo@[i]]
            0 <= i < repo@.len() ==> dir@[i] == (if repo@[i] == '/' {
                '_'
            } else {
                repo@[i]
            }),
        path@ == place@.push('/') + name@,
{
    text::law_replaced_changes_one_character(repo@, '/', '_');
    law_stored_path_ends_in_the_name(place@, name@);
}

/// A listing is refused with any status but success: with one sentence for a
/// repository that is not found, and another for all other statuses.
pub proof fn law_refused_listing(
    status: u16,
    described: &str,
    repo_type: &str,
    repo: &str,
    r: Result<(), String>,
)
    requires
        call_ensures(check_listing_status, (status, described, repo_type, repo), r),
    ensures
        r is Ok <==> status / 100 == 2,
        status == 404 ==> (r matches Err(e) && e@ == "Repository not found or private: "@
            + repo_type@ + "/"@ + repo@),
        status / 100 != 2 && status != 404 ==> (r matches Err(e) && e@
            == "Failed to fetch repo files: HTTP "@ + described@),
{
}

/// A status is one of success, or it is not.
pub proof fn law_success_of_a_status(status: u16, r: bool)
    requires
        call_ensures(success, (status,), r),
    ensures
        r <==> status / 100 == 2,
{
}

/// The message says how many files there are, and how many of them are kept in
/// large file storage.
pub proof fn law_found_message(files: Vec<RepoFile>, message: String)
    requires
        call_ensures(found_message, (&files,), message),
    ensures
        message@ == "Found "@ + text::decimal(files@.len()) + " files, "@ + text::decimal(
            lfs_count_of(files@),
        ) + " with LFS"@,
{
}

/// What is said of an address is known of it, and of no other address anything
/// changes.
pub proof fn law_said_hash_is_known(
    map: &mut ShaMap,
    url: String,
    hash: String,
    asked: &str,
    before: Option<String>,
    after: Option<String>,
)
    requires
        call_ensures(ShaMap::get, (&*old(map), asked), before),
        call_ensures(ShaMap::insert, (map, url, hash), ()),
        call_ensures(ShaMap::get, (&*final(map), asked), after),
    ensures
        asked@ == url@ ==> (after matches Some(h) && h@ == hash@),
        asked@ != url@ ==> match before {
            Some(h) => after matches Some(g) && g@ == h@,
            None => after is None,
        },
{
}

/// The hash of a file is asked for under its address with `.sha256` behind it.
pub proof fn law_hash_url(url: &str, r: String)
    requires
        call_ensures(hash_url, (url,), r),
    ensures
        r@ == url@ + seq!['.', 's', 'h', 'a', '2', '5', '6'],
{
    reveal_strlit(".sha256");
    assert(".sha256"@ =~= seq!['.', 's', 'h', 'a', '2', '5', '6']);
}

/// The first word of a successful answer is the hash; an answer that failed or
/// could not be read has none.
pub proof fn law_hash_is_the_first_word(
    status: u16,
    text: Option<String>,
    r: Option<String>,
    front: Seq<char>,
    hash: Seq<char>,
    back: Seq<char>,
)
    requires
        call_ensures(fetch_sha256_hash, (status, text), r),
        text::all_blanks(front),
        forall|i: int| 0 <= i < hash.len() ==> !text::is_whitespace(#[trigger] hash[i]),
        hash.len() > 0,
        back.len() > 0 ==> text::is_whitespace(back.first()),
    ensures
        status / 100 != 2 || text is None ==> r is None,
        status / 100 == 2 ==> (text matches Some(t) ==> {
            &&& t@ == front + hash + back ==> (r matches Some(h) && h@ == hash)
            &&& t@ == front ==> r is None
        }),
{
    text::law_first_word_stands_alone(front, hash, back);
}

/// The linked entity tag counts if it is there, even if it cannot be read, and
/// otherwise the entity tag.
pub proof fn law_linked_tag_counts_first(
    linked: HeaderText,
    etag: HeaderText,
    r: Option<String>,
    tag: String,
)
    requires
        call_ensures(get_sha256_from_etag, (linked, etag), r),
    ensures
        linked == HeaderText::Text(tag) ==> (r matches Some(h) && h@ == tag_hash(tag@)),
        linked is Unreadable ==> r is None,
        linked is Absent && etag == HeaderText::Text(tag) ==> (r matches Some(h) && h@ == tag_hash(
            tag@,
        )),
        linked is Absent && !(etag is Text) ==> r is None,
{
}

/// The expected hash of a file is the one that the hub lists, else the one that
/// is known of its address, else the hub is asked under its address.
pub proof fn law_expected_hash_has_three_sources(
    file: RepoFile,
    map: ShaMap,
    repo_type: &str,
    repo: &str,
    url: String,
    u: &str,
    r: ExpectedHash,
)
    requires
        call_ensures(remote_url, (repo_type, repo, u), url),
        u@ == file.rfilename@,
        call_ensures(expected_hash, (&file, &map, repo_type, repo), r),
    ensures
        file.lfs matches Some(info) ==> (r matches ExpectedHash::Known(h) && h@ == info.oid@),
        file.lfs is None && map@.dom().contains(url@) ==> (r matches ExpectedHash::Known(h) && h@
            == map@[url@]),
        file.lfs is None && !map@.dom().contains(url@) ==> (r matches ExpectedHash::AskFile(a) && a@
            == url@),
{
}

/// An answer ends the search with the hash that was answered. Without one, the
/// hash file is followed by the entity tag of the same address, and that by
/// nothing.
pub proof fn law_search_for_the_hash(
    url: String,
    hash: String,
    file_answered: ExpectedHash,
    file_silent: ExpectedHash,
    tag_answered: ExpectedHash,
    tag_silent: ExpectedHash,
    known: ExpectedHash,
)
    requires
        call_ensures(hash_answered, (ExpectedHash::AskFile(url), Some(hash)), file_answered),
        call_ensures(hash_answered, (ExpectedHash::AskFile(url), None), file_silent),
        call_ensures(hash_answered, (ExpectedHash::AskTag(url), Some(hash)), tag_answered),
        call_ensures(hash_answered, (ExpectedHash::AskTag(url), None), tag_silent),
        call_ensures(hash_answered, (ExpectedHash::Known(hash), None), known),
    ensures
        file_answered == ExpectedHash::Known(hash),
        file_silent == ExpectedHash::AskTag(url),
        tag_answered == ExpectedHash::Known(hash),
        tag_silent is Unknown,
        known == ExpectedHash::Known(hash),
{
}

/// A look adds a result if and only if the hash of the file was taken, and the
/// results in front of it stay as they are.
pub proof fn law_take_adds_a_result_for_a_hash(
    verification: &mut Verification,
    file: RepoFile,
    look: FileLook,
)
    requires
        call_ensures(Verification::take, (verification, &file, look), ()),
    ensures
        ({
            let before = old(verification).results@;
            let after = final(verification).results@;
            match look {
                FileLook::Hashed { expected, actual } => {
                    &&& after.drop_last() == before
                    &&& after.len() == before.len() + 1
                    &&& after.last().filename@ == file.rfilename@
                    &&& after.last().expected_hash@ == expected@
                    &&& after.last().actual_hash@ == actual@
                    &&& after.last().passed <==> actual@ == expected@
                },
                _ => after == before,
            }
        }),
{
    let before = old(verification).results@;
    let after = final(verification).results@;
    if look is Hashed {
        assert(after.drop_last() =~= before);
    }
}

/// A file whose hash was taken and is another text is corrupted and goes on the
/// list, with both hashes; one that has its hash passed; and nothing else goes on
/// the list.
pub proof fn law_record_lists_corrupted_files(
    report: &mut VerificationReport,
    file: RepoFile,
    expected: String,
    outcome: HashOutcome,
    verdict: Verdict,
)
    requires
        call_ensures(VerificationReport::record, (report, &file, expected, outcome), verdict),
    ensures
        ({
            let before = old(report).failed@;
            let after = final(report).failed@;
            match outcome {
                HashOutcome::Digest(actual) => if actual@ == expected@ {
                    verdict is Passed && after == before
                } else {
                    &&& verdict is Corrupted
                    &&& after.drop_last() == before
                    &&& after.len() == before.len() + 1
                    &&& after.last().filename@ == file.rfilename@
                    &&& after.last().expected_hash@ == expected@
                    &&& after.last().actual_hash@ == actual@
                    &&& !after.last().passed
                },
                _ => verdict is Unchecked && after == before,
            }
        }),
{
    let before = old(report).failed@;
    let after = final(report).failed@;
    if verdict is Corrupted {
        assert(after.drop_last() =~= before);
    }
}

/// The download ends well if and only if the list is empty.
pub proof fn law_report_decides_the_end(
    report: VerificationReport,
    files: Vec<RepoFile>,
    r: Result<String, String>,
)
    requires
        call_ensures(VerificationReport::conclude, (&report, &files), r),
    ensures
        r is Err <==> report.failed@.len() > 0,
        r matches Ok(message) ==> message@ == (if lfs_count_of(files@) == 0 {
            "No LFS files to verify"@
        } else {
            "All "@ + text::decimal(lfs_count_of(files@)) + " LFS files passed hash verification!"@
        }),
{
}

/// A file that is missing is fetched. One that is there is left as it is, unless
/// its hash is listed and hashes are not skipped: then it is held to that hash.
pub proof fn law_first_step_for_a_file(file: RepoFile, exists: bool, skip_sha: bool, r: FileStep)
    requires
        call_ensures(file_step, (&file, exists, skip_sha), r),
    ensures
        r is Download <==> !exists,
        r is Check <==> exists && file.lfs is Some && !skip_sha,
        r matches FileStep::Check(hash) ==> hash@ == file.lfs->0.oid@,
{
}

/// The hash that a file is held to at the end is the one that the hub lists, for
/// files that are there and have at most five gibibytes.
pub proof fn law_final_check_of_a_file(file: RepoFile, exists: bool, r: Option<String>)
    requires
        call_ensures(final_check, (&file, exists), r),
    ensures
        r is Some <==> exists && file.lfs is Some && file.lfs->0.size <= 5 * 1024 * 1024 * 1024,
        r matches Some(hash) ==> hash@ == file.lfs->0.oid@,
{
    law_small_listed_files_are_checked(file, exists);
}

/// The settings hold for the download as they are; without settings, four files
/// are fetched at a time, in four slices each, from a repository of models.
pub proof fn law_settings_hold_for_the_download(
    config: Option<crate::config::AppConfig>,
    limits: (u32, u32, Option<u64>),
    repo_type: String,
)
    requires
        call_ensures(download_limits, (&config,), limits),
        call_ensures(repo_type_of, (&config,), repo_type),
    ensures
        config matches Some(c) ==> {
            &&& limits.0 == c.max_parallel
            &&& limits.1 == c.max_chunk
            &&& limits.2 == c.max_size
            &&& repo_type@ == c.repo_type@
        },
        config is None ==> {
            &&& limits.0 == 4
            &&& limits.1 == 4
            &&& limits.2 is None
            &&& repo_type@ == "models"@
        },
{
}

/// A directory is passed over if its listing is refused. If it is listed, its
/// entries are taken up in front of all others, or the walk ends with the reason
/// why they could not be read; files that were found stay.
pub proof fn law_answer_for_a_directory(
    listing: &mut Listing,
    status: u16,
    entries: Vec<ApiFileInfo>,
    r: Result<(), String>,
)
    requires
        call_ensures(Listing::folder_answered, (listing, status, Ok(entries)), r),
    ensures
        r is Ok,
        final(listing).files() == old(listing).files(),
        final(listing).pending() == (if status / 100 == 2 {
            entries@ + old(listing).pending()
        } else {
            old(listing).pending()
        }),
{
}

/// The listing of a repository without directories holds each of its files, with
/// its path, its large file storage and its size, as often as it is there, and
/// nothing else.
pub proof fn law_flat_repository_is_listed(
    root: Vec<ApiFileInfo>,
    listing: Listing,
    r: Vec<RepoFile>,
)
    requires
        call_ensures(Listing::new, (root,), listing),
        call_ensures(Listing::finish, (listing,), r),
    ensures
        forall|i: int|
            0 <= i < root@.len() && (#[trigger] root@[i]).file_type@ == "file"@
                ==> r@.to_multiset().count(
                (RepoFile { rfilename: root@[i].path, lfs: root@[i].lfs, size: root@[i].size }),
            ) > 0,
        r@.to_multiset() == files_in(root@).to_multiset(),
        listing.pending() == folders_in(root@),
{
    broadcast use vstd::seq_lib::group_to_multiset_ensures;

    let reply = |path: Seq<char>| None::<Seq<ApiFileInfo>>;
    assert forall|i: int|
        0 <= i < root@.len() && (#[trigger] root@[i]).file_type@ == "file"@ implies r@.to_multiset().count(
        (RepoFile { rfilename: root@[i].path, lfs: root@[i].lfs, size: root@[i].size }),
    ) > 0 by {
        law_every_file_entry_is_listed(root@, reply, 0, i);
        let file = RepoFile { rfilename: root@[i].path, lfs: root@[i].lfs, size: root@[i].size };
        assert(files_in(root@).contains(file));
        assert(files_in(root@).to_multiset().count(file) > 0);
    }
}

/// The walk through a repository ends, and the files of the top directory and
/// those that the walk took up are all files below the top directory, as often
/// as they are there.
pub proof fn law_listing_is_complete(
    root: Seq<ApiFileInfo>,
    reply: spec_fn(Seq<char>) -> Option<Seq<ApiFileInfo>>,
    depth: nat,
)
    requires
        fits(folders_in(root), reply, depth),
    ensures
        walked(
            folders_in(root),
            reply,
            folders_below(folders_in(root), reply, depth),
        ) matches Some(found) && (files_in(root) + found).to_multiset() == files_below(
            root,
            reply,
            depth,
        ).to_multiset(),
{
    law_walk_ends(folders_in(root), reply, depth);
    law_walk_begins_with_the_top_directory(root, reply, depth);
}

/// The walk takes up the files in front of the next directory, asks for that
/// directory, and keeps what is behind it; without one it takes up all files.
pub proof fn law_next_folder(
    listing: &mut Listing,
    front: Seq<ApiFileInfo>,
    directory: ApiFileInfo,
    back: Seq<ApiFileInfo>,
    r: Option<String>,
)
    requires
        forall|i: int| 0 <= i < front.len() ==> (#[trigger] front[i]).file_type@ != "directory"@,
        directory.file_type@ == "directory"@,
        call_ensures(Listing::next_folder, (listing,), r),
    ensures
        old(listing).pending() == front.push(directory) + back ==> {
            &&& final(listing).files() == old(listing).files() + files_in(front)
            &&& final(listing).pending() == back
            &&& r == Some(directory.path)
        },
        old(listing).pending() == front ==> {
            &&& final(listing).files() == old(listing).files() + files_in(front)
            &&& final(listing).pending().len() == 0
            &&& r is None
        },
{
    law_walk_goes_to_the_first_directory(front, directory, back);
}

/// Sorting keeps all files, as often as they are there, and puts them in order.
pub proof fn law_sort_files(files: Vec<RepoFile>, r: Vec<RepoFile>)
    requires
        call_ensures(sort_files, (files,), r),
    ensures
        r@.to_multiset() == files@.to_multiset(),
        ordered(r@),
        r@.len() == files@.len(),
{
}

/// What is collected are the hashes that the hub lists: the one of a file in
/// large file storage whose name no later file has is known under its address.
pub proof fn law_collect_hashes(
    files: Vec<RepoFile>,
    i: int,
    repo_type: &str,
    repo: &str,
    map: ShaMap,
    address: &str,
    known: Option<String>,
)
    requires
        0 <= i < files@.len(),
        files@[i].lfs is Some,
        forall|j: int| i < j < files@.len() ==> (#[trigger] files@[j]).rfilename@
            != files@[i].rfilename@,
        call_ensures(collect_hashes, (&files, repo_type, repo), map),
        address@ == remote_address(repo_type@, repo@, files@[i].rfilename@),
        call_ensures(ShaMap::get, (&map, address), known),
    ensures
        known matches Some(hash) && hash@ == files@[i].lfs->0.oid@,
{
    let front = files@.take(i);
    let back = files@.skip(i + 1);
    assert(front.push(files@[i]) + back =~= files@);
    assert forall|j: int| 0 <= j < back.len() implies (#[trigger] back[j]).rfilename@
        != files@[i].rfilename@ by {
        assert(back[j] == files@[i + 1 + j]);
    }
    law_collected_hash_is_the_listed_one(front, files@[i], back, repo_type@, repo@);
}

/// The files in large file storage are counted, one by one.
pub proof fn law_lfs_count(files: Vec<RepoFile>, r: usize)
    requires
        call_ensures(lfs_count, (&files,), r),
    ensures
        r == lfs_count_of(files@),
        r == 0 <==> forall|i: int| 0 <= i < files@.len() ==> (#[trigger] files@[i]).lfs is None,
        r == files@.len() <==> forall|i: int|
            0 <= i < files@.len() ==> (#[trigger] files@[i]).lfs is Some,
{
    lemma_lfs_count_ends(files@);
}

proof fn lemma_lfs_count_ends(files: Seq<RepoFile>)
    ensures
        lfs_count_of(files) <= files.len(),
        lfs_count_of(files) == 0 <==> forall|i: int|
            0 <= i < files.len() ==> (#[trigger] files[i]).lfs is None,
        lfs_count_of(files) == files.len() <==> forall|i: int|
            0 <= i < files.len() ==> (#[trigger] files[i]).lfs is Some,
    decreases files.len(),
{
    if files.len() > 0 {
        let front = files.drop_last();
        let last = files[files.len() - 1];
        lemma_lfs_count_ends(front);
        assert(forall|i: int| 0 <= i < front.len() ==> #[trigger] front[i] == files[i]);
        assert forall|i: int| 0 <= i < front.len() implies #[trigger] files[i] == front[i] by {}
    }
}

}
