//! One file: how it is cut into slices, which requests fetch the slices, and
//! how often a request is repeated.
use vstd::arithmetic::div_mod;
use vstd::prelude::*;

use crate::paths;
use crate::text;

verus! {

// ---------------------------------------------------------------------------
// Slices
// ---------------------------------------------------------------------------

/// Slice number `i` of a file of `total` bytes that is cut into `count` parts
/// and lies at offset `start2`: its first byte, its last byte and its length.
/// All parts have the same length, but the last one takes the rest as well.
pub open spec fn chunk_slice(total: int, count: int, start2: int, i: int) -> (u64, u64, u64) {
    let size = total / count;
    let start = i * size;
    let end = if i == count - 1 {
        total - 1
    } else {
        (i + 1) * size - 1
    };
    ((start + start2) as u64, (end + start2) as u64, (end - start + 1) as u64)
}

/// The slices of a file that is cut into `count` parts.
pub open spec fn chunk_slices(total: int, count: int, start2: int) -> Seq<(u64, u64, u64)> {
    Seq::new(count as nat, |i: int| chunk_slice(total, count, start2, i))
}

proof fn lemma_chunk_bounds(total: int, count: int, i: int)
    requires
        0 <= i < count <= total,
    ensures
        total / count >= 1,
        0 <= i * (total / count),
        (i + 1) * (total / count) <= total,
        (i + 1) * (total / count) == i * (total / count) + total / count,
{
    let size = total / count;
    div_mod::lemma_fundamental_div_mod(total, count);
    div_mod::lemma_div_is_ordered(count, total, count);
    div_mod::lemma_div_by_self(count);
    assert((i + 1) * size <= count * size) by (nonlinear_arith)
        requires
            i + 1 <= count,
            size >= 1,
    ;
    assert((i + 1) * size == i * size + size) by (nonlinear_arith);
    assert(0 <= i * size) by (nonlinear_arith)
        requires
            0 <= i,
            size >= 1,
    ;
}

/// Cuts a file of `total_size` bytes into `chunk_count` slices and moves each
/// of them by `start2` bytes. A slice is its first byte, its last byte and its
/// length.
pub fn slice_chunk(total_size: u64, chunk_count: usize, start2: u64) -> (result: Vec<
    (u64, u64, u64),
>)
    requires
        1 <= chunk_count <= total_size,
        total_size - 1 + start2 <= u64::MAX,
    ensures
        result@ == chunk_slices(total_size as int, chunk_count as int, start2 as int),
{
    let mut result: Vec<(u64, u64, u64)> = Vec::new();
    let chunk_size: u64 = total_size / chunk_count as u64;
    let mut i: usize = 0;
    while i < chunk_count
        invariant
            i <= chunk_count,
            1 <= chunk_count <= total_size,
            total_size - 1 + start2 <= u64::MAX,
            chunk_size == total_size as int / chunk_count as int,
            result@ == chunk_slices(total_size as int, chunk_count as int, start2 as int).take(
                i as int,
            ),
        decreases chunk_count - i,
    {
        proof {
            lemma_chunk_bounds(total_size as int, chunk_count as int, i as int);
        }
        let start: u64 = i as u64 * chunk_size;
        let end: u64 = if i == chunk_count - 1 {
            total_size - 1
        } else {
            (i as u64 + 1) * chunk_size - 1
        };
        let length: u64 = (end - start) + 1;
        result.push((start + start2, end + start2, length));
        i = i + 1;
        assert(result@ =~= chunk_slices(
            total_size as int,
            chunk_count as int,
            start2 as int,
        ).take(i as int));
    }
    assert(result@ =~= chunk_slices(total_size as int, chunk_count as int, start2 as int));
    result
}

/// The number of slices of at most `max` bytes that `total` bytes need.
pub open spec fn sized_count(total: int, max: int) -> int {
    (total + max - 1) / max
}

/// Slice number `i` of a file of `total` bytes that is cut every `max` bytes.
pub open spec fn sized_slice(total: int, max: int, i: int) -> (u64, u64, u64) {
    let start = i * max;
    let end = if (i + 1) * max <= total {
        (i + 1) * max - 1
    } else {
        total - 1
    };
    (start as u64, end as u64, (end - start + 1) as u64)
}

/// The slices of a file that is cut every `max` bytes.
pub open spec fn sized_slices(total: int, max: int) -> Seq<(u64, u64, u64)> {
    Seq::new(sized_count(total, max) as nat, |i: int| sized_slice(total, max, i))
}

proof fn lemma_sized_count(total: int, max: int, n: int)
    requires
        0 < max,
        0 < total,
        0 < n,
        (n - 1) * max < total <= n * max,
    ensures
        sized_count(total, max) == n,
{
    let r = total + max - 1 - n * max;
    assert((n - 1) * max == n * max - max) by (nonlinear_arith);
    assert(0 <= r < max);
    div_mod::lemma_fundamental_div_mod_converse(total + max - 1, max, n, r);
}

/// Cuts a file of `total_size` bytes into slices of `max_size` bytes, the last
/// of which may be shorter. Without a size there are no slices.
pub fn slice_chunk_size(total_size: u64, max_size: Option<u64>) -> (result: Vec<(u64, u64, u64)>)
    requires
        max_size matches Some(max) ==> max > 0 && total_size > 0,
    ensures
        match max_size {
            Some(max) => result@ == sized_slices(total_size as int, max as int),
            None => result@.len() == 0,
        },
{
    let mut result: Vec<(u64, u64, u64)> = Vec::new();
    if let Some(maxsize) = max_size {
        let mut start: u64 = 0;
        let ghost mut n: int = 0;
        loop
            invariant_except_break
                0 < maxsize,
                n >= 0,
                start == n * maxsize,
                start < total_size,
                result@ == Seq::new(
                    n as nat,
                    |i: int| sized_slice(total_size as int, maxsize as int, i),
                ),
            ensures
                (n - 1) * maxsize < total_size <= n * maxsize,
                n > 0,
                result@ == Seq::new(
                    n as nat,
                    |i: int| sized_slice(total_size as int, maxsize as int, i),
                ),
            decreases total_size - start,
        {
            assert((n + 1) * maxsize == n * maxsize + maxsize) by (nonlinear_arith);
            if total_size - start <= maxsize {
                result.push((start, total_size - 1, total_size - start));
                assert(result@ =~= Seq::new(
                    (n + 1) as nat,
                    |i: int| sized_slice(total_size as int, maxsize as int, i),
                ));
                proof {
                    n = n + 1;
                }
                break;
            }
            result.push((start, start + (maxsize - 1), maxsize));
            assert(result@ =~= Seq::new(
                (n + 1) as nat,
                |i: int| sized_slice(total_size as int, maxsize as int, i),
            ));
            start = start + maxsize;
            proof {
                n = n + 1;
            }
        }
        proof {
            lemma_sized_count(total_size as int, maxsize as int, n);
        }
    }
    result
}

/// The slices that a file is fetched in: `count` parts, or parts of `max`
/// bytes if a size is given.
pub open spec fn planned(total: int, count: int, max: Option<u64>) -> Seq<(u64, u64, u64)> {
    match max {
        Some(max) => sized_slices(total, max as int),
        None => chunk_slices(total, count, 0),
    }
}

/// Whether a file of `total` bytes can be cut as asked.
pub open spec fn plannable(total: int, count: int, max: Option<u64>) -> bool {
    match max {
        Some(max) => 0 < count && 0 < max && 0 < total,
        None => 0 < count <= total,
    }
}

/// Whether a file can be cut as asked.
pub fn can_plan(total_size: u64, chunk_count: usize, max_size: Option<u64>) -> (r: bool)
    ensures
        r == plannable(total_size as int, chunk_count as int, max_size),
{
    match max_size {
        Some(max) => 0 < chunk_count && 0 < max && 0 < total_size,
        None => 0 < chunk_count && chunk_count as u64 <= total_size,
    }
}

/// Cuts a file into the slices that it is fetched in.
pub fn plan_slices(total_size: u64, chunk_count: usize, max_size: Option<u64>) -> (r: Vec<
    (u64, u64, u64),
>)
    requires
        plannable(total_size as int, chunk_count as int, max_size),
    ensures
        r@ == planned(total_size as int, chunk_count as int, max_size),
{
    if max_size.is_none() {
        slice_chunk(total_size, chunk_count, 0)
    } else {
        slice_chunk_size(total_size, max_size)
    }
}

/// Whether slices lie one behind the other, from byte `from` to the byte in
/// front of `to`, none of them empty and each with its length.
pub open spec fn covers(slices: Seq<(u64, u64, u64)>, from: int, to: int) -> bool {
    &&& slices.len() > 0
    &&& slices.first().0 == from
    &&& slices.last().1 + 1 == to
    &&& forall|i: int|
        #![trigger slices[i]]
        0 <= i < slices.len() ==> slices[i].0 <= slices[i].1 && slices[i].2 == slices[i].1
            - slices[i].0 + 1
    &&& forall|i: int, j: int|
        #![trigger slices[i], slices[j]]
        0 <= i && j == i + 1 && j < slices.len() ==> slices[i].1 + 1 == slices[j].0
}

/// A file that is cut into a number of parts is covered by them.
pub proof fn law_chunks_cover_file(total: u64, count: usize, start2: u64)
    requires
        1 <= count <= total,
        total - 1 + start2 <= u64::MAX,
    ensures
        covers(chunk_slices(total as int, count as int, start2 as int), start2 as int, start2
            + total),
        chunk_slices(total as int, count as int, start2 as int).len() == count,
{
    let slices = chunk_slices(total as int, count as int, start2 as int);
    let size = total as int / count as int;
    assert forall|i: int| #![trigger slices[i]] 0 <= i < slices.len() implies slices[i].0
        <= slices[i].1 && slices[i].2 == slices[i].1 - slices[i].0 + 1 && slices[i].0 == start2 + i
        * size && slices[i].1 == start2 + (if i == count - 1 {
        total - 1
    } else {
        (i + 1) * size - 1
    }) by {
        lemma_chunk_bounds(total as int, count as int, i);
    }
}

/// A file that is cut every so many bytes is covered by its slices, all slices
/// but the last have just that length, and there are no more of them than
/// needed.
pub proof fn law_sized_slices_cover_file(total: u64, max: u64)
    requires
        0 < max,
        0 < total,
    ensures
        covers(sized_slices(total as int, max as int), 0, total as int),
        forall|i: int|
            0 <= i < sized_slices(total as int, max as int).len() - 1 ==> (#[trigger] sized_slices(
                total as int,
                max as int,
            )[i]).2 == max,
        sized_slices(total as int, max as int).last().2 <= max,
        (sized_slices(total as int, max as int).len() - 1) * max < total,
{
    let slices = sized_slices(total as int, max as int);
    let n = sized_count(total as int, max as int);
    let d = max as int;
    div_mod::lemma_fundamental_div_mod(total + max - 1, d);
    div_mod::lemma_mod_bound(total + max - 1, d);
    assert(d * n == n * d) by (nonlinear_arith);
    assert((n - 1) * d == n * d - d) by (nonlinear_arith);
    assert((n - 1) * d < total <= n * d);
    assert(n >= 1) by (nonlinear_arith)
        requires
            0 < total <= n * d,
            d > 0,
    ;
    assert forall|i: int| #![trigger slices[i]] 0 <= i < n implies 0 <= i * d < total && slices[i].0
        == i * d && slices[i].1 == (if i == n - 1 {
        total - 1
    } else {
        (i + 1) * d - 1
    }) && slices[i].0 <= slices[i].1 && slices[i].2 == slices[i].1 - slices[i].0 + 1 && (i < n - 1
        ==> slices[i].2 == max) && slices[i].2 <= max by {
        assert((i + 1) * d == i * d + d) by (nonlinear_arith);
        assert(0 <= i * d <= (n - 1) * d) by (nonlinear_arith)
            requires
                0 <= i <= n - 1,
                d > 0,
        ;
        if i < n - 1 {
            assert((i + 1) * d <= (n - 1) * d) by (nonlinear_arith)
                requires
                    i + 1 <= n - 1,
                    d > 0,
            ;
        }
    }
}

/// The bytes of `file` that a slice names.
pub open spec fn slice_bytes(file: Seq<u8>, slice: (u64, u64, u64)) -> Seq<u8> {
    file.subrange(slice.0 as int, slice.1 + 1)
}

/// The bytes of all slices, one slice behind the other.
pub open spec fn merged(file: Seq<u8>, slices: Seq<(u64, u64, u64)>) -> Seq<u8>
    decreases slices.len(),
{
    if slices.len() == 0 {
        Seq::empty()
    } else {
        merged(file, slices.drop_last()) + slice_bytes(file, slices.last())
    }
}

proof fn lemma_merged_prefix(file: Seq<u8>, slices: Seq<(u64, u64, u64)>, from: int, to: int)
    requires
        covers(slices, from, to),
        0 <= from,
        to <= file.len(),
    ensures
        from < to,
        merged(file, slices) == file.subrange(from, to),
    decreases slices.len(),
{
    let last = slices.last();
    let front = slices.drop_last();
    assert(slices[slices.len() - 1] == last);
    if front.len() == 0 {
        assert(merged(file, front) =~= Seq::empty());
        assert(merged(file, slices) =~= file.subrange(from, to));
    } else {
        assert forall|i: int| #![trigger front[i]] 0 <= i < front.len() implies front[i]
            == slices[i] by {}
        assert(slices[front.len() - 1] == front.last());
        lemma_merged_prefix(file, front, from, last.0 as int);
        assert(merged(file, slices) =~= file.subrange(from, to));
    }
}

/// Slices that cover a file give it back when they are put one behind the
/// other.
pub proof fn law_merged_slices_are_the_file(file: Seq<u8>, slices: Seq<(u64, u64, u64)>)
    requires
        covers(slices, 0, file.len() as int),
    ensures
        merged(file, slices) == file,
{
    lemma_merged_prefix(file, slices, 0, file.len() as int);
    assert(file.subrange(0, file.len() as int) =~= file);
}

/// Whatever way a file is cut, its slices, put one behind the other, give back
/// the file; and a slice has the length that it is planned with.
pub proof fn law_planned_slices_restore_file(
    file: Seq<u8>,
    total_size: u64,
    chunk_count: usize,
    max_size: Option<u64>,
)
    requires
        file.len() == total_size,
        plannable(total_size as int, chunk_count as int, max_size),
    ensures
        merged(file, planned(total_size as int, chunk_count as int, max_size)) == file,
        forall|i: int|
            0 <= i < planned(total_size as int, chunk_count as int, max_size).len()
                ==> slice_bytes(
                file,
                #[trigger] planned(total_size as int, chunk_count as int, max_size)[i],
            ).len() == planned(total_size as int, chunk_count as int, max_size)[i].2,
{
    let slices = planned(total_size as int, chunk_count as int, max_size);
    match max_size {
        Some(max) => law_sized_slices_cover_file(total_size, max),
        None => law_chunks_cover_file(total_size, chunk_count, 0),
    }
    law_merged_slices_are_the_file(file, slices);
    assert forall|i: int| 0 <= i < slices.len() implies slice_bytes(
        file,
        #[trigger] slices[i],
    ).len() == slices[i].2 by {
        lemma_slice_in_file(slices, 0, total_size as int, i);
    }
}

proof fn lemma_slice_in_file(slices: Seq<(u64, u64, u64)>, from: int, to: int, i: int)
    requires
        covers(slices, from, to),
        0 <= i < slices.len(),
    ensures
        slices[i].1 < to,
    decreases slices.len() - i,
{
    if i == slices.len() - 1 {
        assert(slices[i] == slices.last());
    } else {
        lemma_slice_in_file(slices, from, to, i + 1);
        assert(slices[i].1 + 1 == slices[i + 1].0);
    }
}

// ---------------------------------------------------------------------------
// Temporary files
// ---------------------------------------------------------------------------

/// The directory that holds the slices of the file `base` while it is fetched.
pub open spec fn temp_dir_of(base: Seq<char>) -> Seq<char> {
    match paths::parent_of(base) {
        Some(dir) => paths::joined(dir, "tmp"@),
        None => paths::joined(base, "tmp"@),
    }
}

/// The name of the temporary file of slice `index`.
pub open spec fn temp_name(stem: Seq<char>, index: nat) -> Seq<char> {
    stem + ".tmp"@ + text::decimal(index)
}

/// The temporary file that holds slice `index` of the file `base`.
pub open spec fn temp_path_of(base: Seq<char>, index: nat) -> Seq<char> {
    let stem = match paths::stem_of(base) {
        Some(stem) => stem,
        None => Seq::empty(),
    };
    paths::joined(temp_dir_of(base), temp_name(stem, index))
}

/// The directory that holds the slices of the file `base` while it is fetched.
pub fn temp_dir(base: &str) -> (r: String)
    ensures
        r@ == temp_dir_of(base@),
{
    match paths::parent(base) {
        Some(dir) => paths::join(&dir, "tmp"),
        None => paths::join(base, "tmp"),
    }
}

fn numbered_temp(stem: &str, index: usize) -> (r: String)
    ensures
        r@ == temp_name(stem@, index as nat),
{
    let mut name = text::join2(stem, ".tmp");
    let number = text::decimal_text(index as u64);
    name.append(&number);
    name
}

/// The temporary file that holds slice `index` of the file `base`.
pub fn temp_chunk_path(base: &str, index: usize) -> (r: String)
    ensures
        r@ == temp_path_of(base@, index as nat),
{
    let stem = match paths::file_stem(base) {
        Some(stem) => stem,
        None => String::new(),
    };
    let dir = temp_dir(base);
    let name = numbered_temp(&stem, index);
    paths::join(&dir, &name)
}

proof fn lemma_same_front(a: Seq<char>, x: Seq<char>, y: Seq<char>)
    requires
        a + x == a + y,
    ensures
        x == y,
{
    assert((a + x).skip(a.len() as int) =~= x);
    assert((a + y).skip(a.len() as int) =~= y);
}

proof fn lemma_joined_injective(dir: Seq<char>, x: Seq<char>, y: Seq<char>)
    requires
        paths::joined(dir, x) == paths::joined(dir, y),
    ensures
        x == y,
{
    if dir.len() == 0 || dir.last() == '/' {
        lemma_same_front(dir, x, y);
    } else {
        lemma_same_front(dir.push('/'), x, y);
    }
}

/// Two slices of one file never share a temporary file.
pub proof fn law_temp_paths_are_distinct(base: Seq<char>, i: nat, j: nat)
    requires
        temp_path_of(base, i) == temp_path_of(base, j),
    ensures
        i == j,
{
    let stem = match paths::stem_of(base) {
        Some(stem) => stem,
        None => Seq::empty(),
    };
    lemma_joined_injective(temp_dir_of(base), temp_name(stem, i), temp_name(stem, j));
    lemma_same_front(stem + ".tmp"@, text::decimal(i), text::decimal(j));
    text::law_decimal_is_injective(i, j);
}

/// The files to remove when a download of `count` slices is interrupted: the
/// temporary files of its slices. A download that can be resumed leaves
/// everything in place.
pub fn leftovers(filename: &str, count: usize, resumable: bool) -> (r: Vec<String>)
    ensures
        resumable ==> r@.len() == 0,
        !resumable ==> r@.len() == count && forall|i: int|
            0 <= i < count ==> (#[trigger] r@[i])@ == temp_path_of(filename@, i as nat),
{
    let mut r: Vec<String> = Vec::new();
    if resumable {
        return r;
    }
    let mut i: usize = 0;
    while i < count
        invariant
            i <= count,
            r@.len() == i,
            forall|k: int| 0 <= k < i ==> (#[trigger] r@[k])@ == temp_path_of(filename@, k as nat),
        decreases count - i,
    {
        r.push(temp_chunk_path(filename, i));
        i = i + 1;
    }
    r
}

// ---------------------------------------------------------------------------
// Cancelling
// ---------------------------------------------------------------------------

/// How many pieces are read between two looks at the cancel flag.
pub const CANCEL_CHECK: u32 = 100;

/// Counts the pieces that were read since the last look at the cancel flag.
#[derive(Clone, Copy, PartialEq, Eq, Structural, Debug)]
pub struct CancelProbe {
    pub counter: u32,
}

impl CancelProbe {
    /// Whether a look is not overdue.
    pub open spec fn wf(self) -> bool {
        self.counter < CANCEL_CHECK
    }

    pub fn new() -> (r: Self)
        ensures
            r.wf(),
            r.counter == 0,
    {
        CancelProbe { counter: 0 }
    }

    /// Counts one piece. Every hundredth piece the flag is looked at, and if it
    /// is set, reading stops.
    pub fn stops(&mut self, cancelled: bool) -> (r: bool)
        requires
            old(self).wf(),
        ensures
            final(self).wf(),
            r == (cancelled && old(self).counter + 1 == CANCEL_CHECK),
            r == (cancelled && old(self).counter == 99),
            final(self).counter == (old(self).counter + 1) % CANCEL_CHECK as int,
            final(self).counter == (if old(self).counter < 99 {
                old(self).counter + 1
            } else {
                0
            }),
    {
        self.counter = self.counter + 1;
        if self.counter == CANCEL_CHECK {
            self.counter = 0;
            cancelled
        } else {
            false
        }
    }
}

/// Fails once the download is cancelled.
pub fn is_cancel(cancelled: bool) -> (r: Result<(), String>)
    ensures
        r is Ok <==> !cancelled,
        r matches Err(e) ==> e@ == "Error"@,
{
    if cancelled {
        return Err("Error".to_string());
    }
    Ok(())
}

/// Lets a download go on unless it was cancelled.
pub fn refuse_cancelled(cancelled: bool) -> (r: Result<(), String>)
    ensures
        r is Ok <==> !cancelled,
        r matches Err(e) ==> e@ == "Download cancelled"@,
{
    if cancelled {
        Err("Download cancelled".to_string())
    } else {
        Ok(())
    }
}

/// How a download ends: well if all of it was fetched and it was not cancelled,
/// otherwise with an error.
pub fn download_result(complete: bool, cancelled: bool) -> (r: Result<(), String>)
    ensures
        r is Ok <==> complete && !cancelled,
        r matches Err(e) ==> e@ == (if cancelled {
            "Download cancelled"@
        } else {
            "Download incomplete"@
        }),
{
    if !cancelled && !complete {
        return Err("Download incomplete".to_string());
    }
    refuse_cancelled(cancelled)
}

/// Whether all slices are complete.
pub open spec fn all_complete(complete: Seq<bool>) -> bool {
    forall|i: int| 0 <= i < complete.len() ==> #[trigger] complete[i]
}

/// How the download of the slices of a file ends. `complete` says of each slice
/// whether all of it was fetched.
pub fn slices_result(complete: &Vec<bool>, cancelled: bool) -> (r: Result<(), String>)
    ensures
        r is Ok <==> !cancelled && forall|i: int| 0 <= i < complete@.len() ==> complete@[i],
        r is Ok <==> !cancelled && all_complete(complete@),
        r matches Err(e) ==> e@ == (if cancelled {
            "Download cancelled"@
        } else {
            "Download incomplete"@
        }),
{
    let mut i: usize = 0;
    while i < complete.len() && complete[i]
        invariant
            i <= complete@.len(),
            forall|k: int| 0 <= k < i ==> complete@[k],
        decreases complete@.len() - i,
    {
        i = i + 1;
    }
    download_result(i == complete.len(), cancelled)
}

// ---------------------------------------------------------------------------
// Fetching
// ---------------------------------------------------------------------------

/// How a file is fetched.
#[derive(Clone, Copy, PartialEq, Eq, Structural, Debug)]
pub enum DownloadMode {
    /// In slices, several at a time.
    Chunks { total_size: u64 },
    /// In one piece.
    Whole,
}

/// In slices if the server serves byte ranges and tells the length of the file.
pub open spec fn mode_of(
    accept_ranges: Option<Seq<char>>,
    content_length: Option<Seq<char>>,
) -> DownloadMode {
    let length = match content_length {
        Some(digits) => text::whole_number(digits),
        None => None,
    };
    match (accept_ranges == Some("bytes"@), length) {
        (true, Some(total_size)) => DownloadMode::Chunks { total_size },
        _ => DownloadMode::Whole,
    }
}

/// The text in an optional value.
pub open spec fn view_opt(s: Option<&str>) -> Option<Seq<char>> {
    match s {
        Some(s) => Some(s@),
        None => None,
    }
}

/// Chooses how a file is fetched, from what the server says of it.
pub fn download_mode(accept_ranges: Option<&str>, content_length: Option<&str>) -> (r: DownloadMode)
    ensures
        r == mode_of(view_opt(accept_ranges), view_opt(content_length)),
{
    let range_ok = match accept_ranges {
        Some(v) => text::same_text(v, "bytes"),
        None => false,
    };
    let total_size = match content_length {
        Some(s) => text::parse_whole_number(s),
        None => None,
    };
    match total_size {
        Some(total_size) => if range_ok {
            DownloadMode::Chunks { total_size }
        } else {
            DownloadMode::Whole
        },
        None => DownloadMode::Whole,
    }
}

/// The value of the `Range` header that asks for the bytes `start` to `end`,
/// both of them included.
pub open spec fn range_of(start: nat, end: nat) -> Seq<char> {
    "bytes="@ + text::decimal(start) + "-"@ + text::decimal(end)
}

/// Writes the `Range` header that asks for the bytes `start` to `end`.
pub fn range_header(start: u64, end: u64) -> (r: String)
    ensures
        r@ == range_of(start as nat, end as nat),
{
    let first = text::decimal_text(start);
    let last = text::decimal_text(end);
    let mut r = text::join2("bytes=", &first);
    r.append("-");
    r.append(&last);
    r
}

/// What a request means for the part of a file that it asks for.
#[derive(Clone, Copy, PartialEq, Eq, Structural, Debug)]
pub enum Outcome {
    /// All of it was fetched.
    Complete,
    /// It was not, and is still wanted.
    Failed,
    /// The download was cancelled.
    Cancelled,
}

/// The requests that are left behind one that ended so: one less, unless the
/// download was cancelled.
pub open spec fn tries_after(tries: u32, outcome: Outcome) -> u32 {
    if outcome is Cancelled {
        tries
    } else {
        (tries - 1) as u32
    }
}

/// The number of requests that are made, out of `tries`, when they end in
/// `outcomes`, one after the other: behind a failed one another is made.
pub open spec fn requests_made(tries: u32, outcomes: Seq<Outcome>) -> nat
    decreases outcomes.len(),
{
    if tries == 0 {
        0
    } else if outcomes.len() > 0 && outcomes.first() is Failed {
        1 + requests_made(tries_after(tries, outcomes.first()), outcomes.drop_first())
    } else {
        1
    }
}

/// Whether the requests that are made, out of `tries`, fetch all that they ask
/// for when they end in `outcomes`.
pub open spec fn ends_complete(tries: u32, outcomes: Seq<Outcome>) -> bool
    decreases outcomes.len(),
{
    if tries == 0 || outcomes.len() == 0 {
        false
    } else if outcomes.first() is Failed {
        ends_complete(tries_after(tries, outcomes.first()), outcomes.drop_first())
    } else {
        outcomes.first() is Complete
    }
}

/// However the requests for a slice or a file end, no more of them are made
/// than allowed.
pub proof fn law_requests_are_bounded(tries: u32, outcomes: Seq<Outcome>)
    ensures
        requests_made(tries, outcomes) <= tries,
    decreases outcomes.len(),
{
    if tries > 0 && outcomes.len() > 0 {
        law_requests_are_bounded(tries_after(tries, outcomes.first()), outcomes.drop_first());
    }
}

/// As long as the requests for a slice or a file fail, another is made behind
/// each of them, up to the number that is allowed.
pub proof fn law_failed_requests_are_repeated(tries: u32, outcomes: Seq<Outcome>)
    requires
        forall|i: int| 0 <= i < outcomes.len() ==> (#[trigger] outcomes[i]) is Failed,
    ensures
        requests_made(tries, outcomes) == (if outcomes.len() < tries {
            outcomes.len() + 1
        } else {
            tries as nat
        }),
    decreases outcomes.len(),
{
    if tries > 0 && outcomes.len() > 0 {
        assert(outcomes[0] is Failed);
        law_failed_requests_are_repeated(
            tries_after(tries, outcomes.first()),
            outcomes.drop_first(),
        );
    }
}

/// Whether request number `n` is one of those allowed, fetches all that it asks
/// for, and comes behind failed ones only.
pub open spec fn answered_at(tries: u32, outcomes: Seq<Outcome>, n: int) -> bool {
    &&& 0 <= n < outcomes.len()
    &&& n < tries
    &&& outcomes[n] is Complete
    &&& forall|i: int| 0 <= i < n ==> (#[trigger] outcomes[i]) is Failed
}

/// A slice or a file ends complete if and only if one of the requests that are
/// allowed fetches all of it, and all requests in front of that one failed.
pub proof fn law_complete_iff_answered(tries: u32, outcomes: Seq<Outcome>)
    ensures
        ends_complete(tries, outcomes) <==> exists|n: int| answered_at(tries, outcomes, n),
    decreases outcomes.len(),
{
    if tries > 0 && outcomes.len() > 0 && outcomes.first() is Failed {
        assert(outcomes[0] == outcomes.first());
        let rest = outcomes.drop_first();
        let left = tries_after(tries, outcomes.first());
        law_complete_iff_answered(left, rest);
        assert forall|n: int| answered_at(left, rest, n) implies answered_at(
            tries,
            outcomes,
            n + 1,
        ) by {
            assert forall|i: int| 0 <= i < n + 1 implies (#[trigger] outcomes[i]) is Failed by {
                if i > 0 {
                    assert(rest[i - 1] == outcomes[i]);
                }
            }
        }
        assert forall|n: int| answered_at(tries, outcomes, n) implies answered_at(
            left,
            rest,
            n - 1,
        ) by {
            assert forall|i: int| 0 <= i < n - 1 implies (#[trigger] rest[i]) is Failed by {
                assert(rest[i] == outcomes[i + 1]);
            }
        }
    } else if tries > 0 && outcomes.len() > 0 {
        assert(outcomes[0] == outcomes.first());
        if outcomes.first() is Complete {
            assert(answered_at(tries, outcomes, 0));
        }
    }
}

/// Whether requests were made step by step. In front of step `k` there are
/// `tries[k]` requests left; it makes one if `asks[k]` says so, and finds
/// everything fetched if `done[k]` says so. `outcomes[k]` is how the request of
/// step `k` ended.
spec fn stepwise(
    tries: Seq<u32>,
    outcomes: Seq<Outcome>,
    asks: Seq<bool>,
    done: Seq<bool>,
) -> bool {
    &&& tries.len() == outcomes.len() + 1
    &&& asks.len() == outcomes.len() + 1
    &&& done.len() == outcomes.len() + 1
    &&& asks[0] == (tries[0] > 0)
    &&& !done[0]
    &&& forall|k: int|
        #![trigger outcomes[k]]
        0 <= k < outcomes.len() ==> {
            &&& asks[k]
            &&& tries[k + 1] == tries_after(tries[k], outcomes[k])
            &&& asks[k + 1] == (outcomes[k] is Failed && tries[k + 1] > 0)
            &&& done[k + 1] == (outcomes[k] is Complete)
        }
}

proof fn lemma_stepwise(
    tries: Seq<u32>,
    outcomes: Seq<Outcome>,
    asks: Seq<bool>,
    done: Seq<bool>,
)
    requires
        stepwise(tries, outcomes, asks, done),
    ensures
        requests_made(tries[0], outcomes) == outcomes.len() + (if asks.last() {
            1nat
        } else {
            0nat
        }),
        ends_complete(tries[0], outcomes) == done.last(),
    decreases outcomes.len(),
{
    if outcomes.len() > 0 {
        let first = outcomes[0];
        assert(asks[0]);
        if first is Failed {
            let rest = outcomes.drop_first();
            let (t, a, d) = (tries.drop_first(), asks.drop_first(), done.drop_first());
            assert forall|k: int| #![trigger rest[k]] 0 <= k < rest.len() implies a[k] && t[k + 1]
                == tries_after(t[k], rest[k]) && a[k + 1] == (rest[k] is Failed && t[k + 1] > 0)
                && d[k + 1] == (rest[k] is Complete) by {
                assert(rest[k] == outcomes[k + 1]);
            }
            lemma_stepwise(t, rest, a, d);
        } else {
            assert(!asks[1]);
            if outcomes.len() > 1 {
                let second = outcomes[1];
                assert(asks[1]);
            }
        }
    }
}

/// The fetching of one slice: what is asked for, and how many requests may
/// still be made.
#[derive(Clone, Copy, PartialEq, Eq, Structural, Debug)]
pub struct ChunkFetch {
    pub start: u64,
    pub end: u64,
    pub length: u64,
    pub tries: u32,
}

/// What is to be done for a slice.
pub enum ChunkAction {
    /// The slice is there already: count its bytes as fetched.
    Skip { bytes: u64 },
    /// Remove the temporary file, and ask for the slice with this range.
    Request { range: String },
    /// Nothing more. The slice is `complete` if all of it was fetched.
    Stop { complete: bool },
}

/// What came of a request. Where something could be read, `cancelled` says
/// whether the download was cancelled meanwhile.
#[derive(Clone, Copy, PartialEq, Eq, Structural, Debug)]
pub enum ChunkEvent {
    /// The download was cancelled before the server answered.
    Cancelled,
    /// The request could not be sent.
    Unsent,
    /// The answer broke off.
    BrokenOff { cancelled: bool },
    /// The answer was read to its end, or up to the look that found the
    /// download `cancelled`.
    Received { cancelled: bool },
}

impl ChunkEvent {
    /// What the request means for the slice.
    pub open spec fn outcome(self) -> Outcome {
        match self {
            ChunkEvent::Unsent | ChunkEvent::BrokenOff { cancelled: false } => Outcome::Failed,
            ChunkEvent::Received { cancelled: false } => Outcome::Complete,
            _ => Outcome::Cancelled,
        }
    }
}

impl ChunkFetch {
    /// Whether `action` asks for this slice.
    pub open spec fn asks(self, action: ChunkAction) -> bool {
        match action {
            ChunkAction::Request { range } => range@ == range_of(
                self.start as nat,
                self.end as nat,
            ),
            _ => false,
        }
    }

    /// Whether `action` asks once more if a request is left, and gives the slice
    /// up if not.
    pub open spec fn continues(self, action: ChunkAction) -> bool {
        if self.tries > 0 {
            self.asks(action)
        } else {
            action == (ChunkAction::Stop { complete: false })
        }
    }

    /// Whether the slice is left as it is: the temporary file, whose size is
    /// `existing`, is complete, and the download is to be resumed.
    pub open spec fn skips(self, existing: Option<u64>, resumable: bool) -> bool {
        resumable && existing == Some(self.length)
    }

    /// What is left behind a request of which `event` came.
    pub open spec fn after(self, event: ChunkEvent) -> ChunkFetch {
        ChunkFetch { tries: tries_after(self.tries, event.outcome()), ..self }
    }

    /// Whether `action` is the step behind a request of which `event` came.
    pub open spec fn answers(self, event: ChunkEvent, action: ChunkAction) -> bool {
        match event.outcome() {
            Outcome::Failed => self.after(event).continues(action),
            Outcome::Complete => action == (ChunkAction::Stop { complete: true }),
            Outcome::Cancelled => action == (ChunkAction::Stop { complete: false }),
        }
    }

    /// The fetching of `slice` with at most `max_try` requests.
    pub open spec fn of(slice: (u64, u64, u64), max_try: u32) -> ChunkFetch {
        ChunkFetch { start: slice.0, end: slice.1, length: slice.2, tries: max_try }
    }

    /// The fetching of `slice` with at most `max_try` requests.
    pub fn new(slice: (u64, u64, u64), max_try: u32) -> (r: Self)
        ensures
            r == ChunkFetch::of(slice, max_try),
    {
        ChunkFetch { start: slice.0, end: slice.1, length: slice.2, tries: max_try }
    }

    fn request(&self) -> (r: ChunkAction)
        ensures
            self.continues(r),
    {
        if self.tries > 0 {
            ChunkAction::Request { range: range_header(self.start, self.end) }
        } else {
            ChunkAction::Stop { complete: false }
        }
    }

    /// The first step. `existing` is the size of the temporary file, if there
    /// is one: a slice that is complete is not fetched again, unless the
    /// download is not to be resumed.
    pub fn begin(&self, existing: Option<u64>, resumable: bool) -> (r: ChunkAction)
        ensures
            self.skips(existing, resumable) ==> r == (ChunkAction::Skip { bytes: self.length }),
            !self.skips(existing, resumable) ==> self.continues(r),
    {
        if let Some(size) = existing {
            if resumable && size == self.length {
                return ChunkAction::Skip { bytes: size };
            }
        }
        self.request()
    }

    /// The step behind a request: a failed one is repeated as long as a request
    /// is left, and a complete answer or a cancellation ends the fetching. The
    /// flag says whether the progress that was shown goes back to nothing.
    pub fn advance(&mut self, event: ChunkEvent) -> (r: (ChunkAction, bool))
        requires
            old(self).tries > 0,
        ensures
            *final(self) == old(self).after(event),
            old(self).answers(event, r.0),
            r.1 == !(event is Cancelled || event.outcome() is Complete),
    {
        match event {
            ChunkEvent::Cancelled => (ChunkAction::Stop { complete: false }, false),
            ChunkEvent::Unsent | ChunkEvent::BrokenOff { cancelled: false } => {
                self.tries = self.tries - 1;
                (self.request(), true)
            },
            ChunkEvent::Received { cancelled: false } => {
                self.tries = self.tries - 1;
                (ChunkAction::Stop { complete: true }, false)
            },
            _ => (ChunkAction::Stop { complete: false }, true),
        }
    }
}

/// Whether a slice was fetched in these steps: `actions[k]` is what is to be
/// done in the state `fetches[k]`, and `events[k]` what came of it. The last
/// action is still to be done.
pub open spec fn slice_run(
    fetches: Seq<ChunkFetch>,
    events: Seq<ChunkEvent>,
    actions: Seq<ChunkAction>,
) -> bool {
    &&& fetches.len() == events.len() + 1
    &&& actions.len() == events.len() + 1
    &&& fetches[0].continues(actions[0])
    &&& forall|k: int|
        #![trigger events[k]]
        0 <= k < events.len() ==> {
            &&& actions[k] is Request
            &&& fetches[k].answers(events[k], actions[k + 1])
            &&& fetches[k + 1] == fetches[k].after(events[k])
        }
}

/// The steps of a slice that is not skipped make just the requests that its
/// tries allow, and they end in a complete slice just when these requests end
/// so.
pub proof fn law_slice_run(
    fetches: Seq<ChunkFetch>,
    events: Seq<ChunkEvent>,
    actions: Seq<ChunkAction>,
)
    requires
        slice_run(fetches, events, actions),
    ensures
        ({
            let outcomes = events.map_values(|event: ChunkEvent| event.outcome());
            let tries = fetches[0].tries;
            &&& requests_made(tries, outcomes) == events.len() + (if actions.last() is Request {
                1nat
            } else {
                0nat
            })
            &&& ends_complete(tries, outcomes) <==> actions.last() == (ChunkAction::Stop {
                complete: true,
            })
        }),
{
    let outcomes = events.map_values(|event: ChunkEvent| event.outcome());
    let tries = fetches.map_values(|fetch: ChunkFetch| fetch.tries);
    let asks = actions.map_values(|action: ChunkAction| action is Request);
    let done = actions.map_values(
        |action: ChunkAction| action == (ChunkAction::Stop { complete: true }),
    );
    assert forall|k: int| #![trigger outcomes[k]] 0 <= k < outcomes.len() implies asks[k]
        && tries[k + 1] == tries_after(tries[k], outcomes[k]) && asks[k + 1] == (
    outcomes[k] is Failed && tries[k + 1] > 0) && done[k + 1] == (outcomes[k] is Complete) by {
        assert(outcomes[k] == events[k].outcome());
    }
    lemma_stepwise(tries, outcomes, asks, done);
}

/// When a download is resumed, a slice is left as it is if and only if its
/// temporary file is complete, whatever way the file is cut. `stored` is the
/// part of the slice that the temporary file holds.
pub proof fn law_slice_is_skipped_iff_complete(
    file: Seq<u8>,
    total_size: u64,
    chunk_count: usize,
    max_size: Option<u64>,
    i: int,
    stored: Seq<u8>,
    max_try: u32,
)
    requires
        file.len() == total_size,
        plannable(total_size as int, chunk_count as int, max_size),
        0 <= i < planned(total_size as int, chunk_count as int, max_size).len(),
        stored.is_prefix_of(
            slice_bytes(file, planned(total_size as int, chunk_count as int, max_size)[i]),
        ),
    ensures
        ChunkFetch::of(
            planned(total_size as int, chunk_count as int, max_size)[i],
            max_try,
        ).skips(Some(stored.len() as u64), true) <==> stored == slice_bytes(
            file,
            planned(total_size as int, chunk_count as int, max_size)[i],
        ),
{
    let slices = planned(total_size as int, chunk_count as int, max_size);
    law_planned_slices_restore_file(file, total_size, chunk_count, max_size);
    let whole = slice_bytes(file, slices[i]);
    assert(whole.len() == slices[i].2);
    assert(stored.len() == whole.len() ==> stored =~= whole);
}

/// The fetching of a file in one piece: how many attempts are left.
#[derive(Clone, Copy, PartialEq, Eq, Structural, Debug)]
pub struct WholeFetch {
    pub tries: u32,
}

/// What is to be done for a file that is fetched in one piece.
#[derive(Clone, Copy, PartialEq, Eq, Structural, Debug)]
pub enum WholeAction {
    /// Ask for the file, from its first byte on. Create it anew and read the
    /// answer into it.
    Request,
    /// Remove the file and end without an error.
    Abandon,
    /// No more attempts. The file is `complete` if the last one fetched all of
    /// it, and removed if not.
    Finish { complete: bool },
}

/// What came of an attempt.
#[derive(Clone, Copy, PartialEq, Eq, Structural, Debug)]
pub enum WholeEvent {
    /// The download was cancelled while the attempt was made.
    Cancelled,
    /// The attempt ended. It is `complete` if the request was sent and nothing
    /// failed on the way to the end of the answer.
    Ended { complete: bool, cancelled: bool },
}

impl WholeEvent {
    /// What the attempt means for the file.
    pub open spec fn outcome(self) -> Outcome {
        match self {
            WholeEvent::Ended { complete: true, cancelled: false } => Outcome::Complete,
            WholeEvent::Ended { complete: false, cancelled: false } => Outcome::Failed,
            _ => Outcome::Cancelled,
        }
    }
}

impl WholeFetch {
    /// Another request if an attempt is left.
    pub open spec fn attempt(self) -> WholeAction {
        if self.tries > 0 {
            WholeAction::Request
        } else {
            WholeAction::Finish { complete: false }
        }
    }

    /// What is left behind an attempt of which `event` came.
    pub open spec fn after(self, event: WholeEvent) -> WholeFetch {
        WholeFetch { tries: tries_after(self.tries, event.outcome()) }
    }

    /// The step behind an attempt of which `event` came.
    pub open spec fn answer(self, event: WholeEvent) -> WholeAction {
        match event.outcome() {
            Outcome::Failed => self.after(event).attempt(),
            Outcome::Complete => WholeAction::Finish { complete: true },
            Outcome::Cancelled => if event is Cancelled {
                WholeAction::Abandon
            } else {
                WholeAction::Finish { complete: false }
            },
        }
    }

    /// The first step.
    pub fn begin(&self) -> (r: WholeAction)
        ensures
            r == self.attempt(),
    {
        if self.tries > 0 {
            WholeAction::Request
        } else {
            WholeAction::Finish { complete: false }
        }
    }

    /// The step behind an attempt: a failed one is repeated as long as an attempt
    /// is left, and a complete file or a cancellation ends the fetching. The flag
    /// says whether the progress that was shown goes back to nothing.
    pub fn advance(&mut self, event: WholeEvent) -> (r: (WholeAction, bool))
        requires
            old(self).tries > 0,
        ensures
            *final(self) == old(self).after(event),
            r.0 == old(self).answer(event),
            r.1 == !(event is Cancelled || event.outcome() is Complete),
    {
        match event {
            WholeEvent::Cancelled => (WholeAction::Abandon, false),
            WholeEvent::Ended { complete, cancelled } => {
                if cancelled {
                    return (WholeAction::Finish { complete: false }, true);
                }
                self.tries = self.tries - 1;
                if complete {
                    (WholeAction::Finish { complete: true }, false)
                } else {
                    (self.begin(), true)
                }
            },
        }
    }
}

/// Whether a file was fetched in one piece in these steps: `actions[k]` is what
/// is to be done in the state `fetches[k]`, and `events[k]` what came of it. The
/// last action is still to be done.
pub open spec fn whole_run(
    fetches: Seq<WholeFetch>,
    events: Seq<WholeEvent>,
    actions: Seq<WholeAction>,
) -> bool {
    &&& fetches.len() == events.len() + 1
    &&& actions.len() == events.len() + 1
    &&& actions[0] == fetches[0].attempt()
    &&& forall|k: int|
        #![trigger events[k]]
        0 <= k < events.len() ==> {
            &&& actions[k] is Request
            &&& actions[k + 1] == fetches[k].answer(events[k])
            &&& fetches[k + 1] == fetches[k].after(events[k])
        }
}

/// The steps of a file in one piece make just the requests that its tries allow,
/// and they end in a complete file just when these requests end so.
pub proof fn law_whole_run(
    fetches: Seq<WholeFetch>,
    events: Seq<WholeEvent>,
    actions: Seq<WholeAction>,
)
    requires
        whole_run(fetches, events, actions),
    ensures
        ({
            let outcomes = events.map_values(|event: WholeEvent| event.outcome());
            let tries = fetches[0].tries;
            &&& requests_made(tries, outcomes) == events.len() + (if actions.last() is Request {
                1nat
            } else {
                0nat
            })
            &&& ends_complete(tries, outcomes) <==> actions.last() == (WholeAction::Finish {
                complete: true,
            })
        }),
{
    let outcomes = events.map_values(|event: WholeEvent| event.outcome());
    let tries = fetches.map_values(|fetch: WholeFetch| fetch.tries);
    let asks = actions.map_values(|action: WholeAction| action is Request);
    let done = actions.map_values(
        |action: WholeAction| action == (WholeAction::Finish { complete: true }),
    );
    assert forall|k: int| #![trigger outcomes[k]] 0 <= k < outcomes.len() implies asks[k]
        && tries[k + 1] == tries_after(tries[k], outcomes[k]) && asks[k + 1] == (
    outcomes[k] is Failed && tries[k + 1] > 0) && done[k + 1] == (outcomes[k] is Complete) by {
        assert(outcomes[k] == events[k].outcome());
    }
    lemma_stepwise(tries, outcomes, asks, done);
}

// ---------------------------------------------------------------------------
// Putting the slices together
// ---------------------------------------------------------------------------

/// What is to be done once all slices have been fetched.
#[derive(Clone, Copy, PartialEq, Eq, Structural, Debug)]
pub enum MergeAction {
    /// Write the temporary file of this slice behind what was written.
    Append { index: usize },
    /// Remove the file: the download was cancelled.
    Discard,
    /// End: the download was cancelled.
    Fail,
    /// Remove the temporary files and their directory, and end.
    Clean,
}

/// The next step once the first `done` of `count` slices have been written.
pub open spec fn merge_action(done: usize, count: usize, cancelled: bool) -> MergeAction {
    if cancelled && done > 0 {
        MergeAction::Discard
    } else if done < count {
        MergeAction::Append { index: done }
    } else if cancelled {
        MergeAction::Fail
    } else {
        MergeAction::Clean
    }
}

/// The next step once the first `done` of `count` slices have been written.
pub fn merge_step(done: usize, count: usize, cancelled: bool) -> (r: MergeAction)
    requires
        done <= count,
    ensures
        r == merge_action(done, count, cancelled),
{
    if cancelled && done > 0 {
        MergeAction::Discard
    } else if done < count {
        MergeAction::Append { index: done }
    } else if cancelled {
        MergeAction::Fail
    } else {
        MergeAction::Clean
    }
}

/// What the steps of an undisturbed merge write, from `done` slices on, when
/// `stored` gives the contents of each path.
pub open spec fn merge_output(
    stored: spec_fn(Seq<char>) -> Seq<u8>,
    base: Seq<char>,
    done: usize,
    count: usize,
) -> Seq<u8>
    decreases count - done,
{
    match merge_action(done, count, false) {
        MergeAction::Append { index } if done < count => stored(temp_path_of(base, index as nat))
            + merge_output(stored, base, (done + 1) as usize, count),
        _ => Seq::empty(),
    }
}

proof fn lemma_merge_output(
    stored: spec_fn(Seq<char>) -> Seq<u8>,
    base: Seq<char>,
    file: Seq<u8>,
    slices: Seq<(u64, u64, u64)>,
    done: usize,
    count: usize,
)
    requires
        done <= count == slices.len(),
        forall|i: int|
            #![trigger slices[i]]
            0 <= i < slices.len() ==> stored(temp_path_of(base, i as nat)) == slice_bytes(
                file,
                slices[i],
            ),
    ensures
        merged(file, slices.take(done as int)) + merge_output(stored, base, done, count) == merged(
            file,
            slices,
        ),
    decreases count - done,
{
    if done == count {
        assert(slices.take(done as int) =~= slices);
        assert(merge_output(stored, base, done, count) =~= Seq::empty());
        assert(merged(file, slices) + Seq::<u8>::empty() =~= merged(file, slices));
    } else {
        lemma_merge_output(stored, base, file, slices, (done + 1) as usize, count);
        let longer = slices.take(done + 1);
        assert(longer.drop_last() =~= slices.take(done as int));
        assert(longer.last() == slices[done as int]);
        let rest = merge_output(stored, base, (done + 1) as usize, count);
        let piece = slice_bytes(file, slices[done as int]);
        assert(merged(file, slices.take(done as int)) + (piece + rest) =~= (merged(
            file,
            slices.take(done as int),
        ) + piece) + rest);
    }
}

/// Whatever way a file was cut, once each temporary file holds its slice, an
/// undisturbed merge writes the file, byte for byte.
pub proof fn law_merge_restores_file(
    stored: spec_fn(Seq<char>) -> Seq<u8>,
    base: Seq<char>,
    file: Seq<u8>,
    total_size: u64,
    chunk_count: usize,
    max_size: Option<u64>,
    count: usize,
)
    requires
        file.len() == total_size,
        plannable(total_size as int, chunk_count as int, max_size),
        count == planned(total_size as int, chunk_count as int, max_size).len(),
        forall|i: int|
            0 <= i < count ==> stored(#[trigger] temp_path_of(base, i as nat)) == slice_bytes(
                file,
                planned(total_size as int, chunk_count as int, max_size)[i],
            ),
    ensures
        merge_output(stored, base, 0, count) == file,
{
    let slices = planned(total_size as int, chunk_count as int, max_size);
    law_planned_slices_restore_file(file, total_size, chunk_count, max_size);
    assert forall|i: int| #![trigger slices[i]] 0 <= i < slices.len() implies stored(
        temp_path_of(base, i as nat),
    ) == slice_bytes(file, slices[i]) by {}
    lemma_merge_output(stored, base, file, slices, 0, count);
    assert(slices.take(0).len() == 0);
    assert(merge_output(stored, base, 0, count) =~= merged(file, slices.take(0)) + merge_output(
        stored,
        base,
        0,
        count,
    ));
}

/// What the temporary file of a slice holds once the slice has been fetched:
/// what it held before if the slice was skipped, and the answer to the request
/// if not.
pub open spec fn kept_or_fetched(
    fetch: ChunkFetch,
    before: Seq<u8>,
    answer: Seq<u8>,
    resumable: bool,
) -> Seq<u8> {
    if fetch.skips(Some(before.len() as u64), resumable) {
        before
    } else {
        answer
    }
}

/// A download that goes on where an earlier one was broken off gives the file,
/// byte for byte: each temporary file held a part of its slice, from the front,
/// and each slice that is asked for is answered with its bytes.
pub proof fn law_resumed_download_restores_file(
    before: spec_fn(Seq<char>) -> Seq<u8>,
    after: spec_fn(Seq<char>) -> Seq<u8>,
    base: Seq<char>,
    file: Seq<u8>,
    total_size: u64,
    chunk_count: usize,
    max_size: Option<u64>,
    max_try: u32,
    resumable: bool,
    count: usize,
)
    requires
        file.len() == total_size,
        plannable(total_size as int, chunk_count as int, max_size),
        count == planned(total_size as int, chunk_count as int, max_size).len(),
        forall|i: int|
            0 <= i < count ==> {
                let path = #[trigger] temp_path_of(base, i as nat);
                let slice = planned(total_size as int, chunk_count as int, max_size)[i];
                &&& before(path).is_prefix_of(slice_bytes(file, slice))
                &&& after(path) == kept_or_fetched(
                    ChunkFetch::of(slice, max_try),
                    before(path),
                    slice_bytes(file, slice),
                    resumable,
                )
            },
    ensures
        merge_output(after, base, 0, count) == file,
{
    let slices = planned(total_size as int, chunk_count as int, max_size);
    assert forall|i: int| 0 <= i < count implies after(#[trigger] temp_path_of(base, i as nat))
        == slice_bytes(file, slices[i]) by {
        law_slice_is_skipped_iff_complete(
            file,
            total_size,
            chunk_count,
            max_size,
            i,
            before(temp_path_of(base, i as nat)),
            max_try,
        );
    }
    law_merge_restores_file(after, base, file, total_size, chunk_count, max_size, count);
}

// ---------------------------------------------------------------------------
// Laws
// ---------------------------------------------------------------------------


/// A file can be cut into a number of parts if there is a byte for each, and
/// into parts of a size if it is not empty and the size is not zero; in both
/// cases some parts must be asked for.
pub proof fn law_what_can_be_cut(total_size: u64, chunk_count: usize, max_size: Option<u64>)
    ensures
        max_size is None ==> (plannable(total_size as int, chunk_count as int, max_size) <==> 1
            <= chunk_count <= total_size),
        max_size matches Some(max) ==> (plannable(total_size as int, chunk_count as int, max_size)
            <==> 1 <= chunk_count && 1 <= max && 1 <= total_size),
{
}

/// When a slice size is given, all slices but the last have just that size, the
/// last one is not longer, and the number of parts plays no role. When none is
/// given, there are as many slices as asked for, all but the last have the same
/// length, and the last one takes less than a byte for each of them more.
pub proof fn law_planned_slices_have_the_size_asked_for(
    total_size: u64,
    chunk_count: usize,
    max_size: Option<u64>,
)
    requires
        1 <= total_size,
        1 <= chunk_count,
        max_size is None ==> chunk_count <= total_size,
        max_size matches Some(max) ==> 1 <= max,
    ensures
        ({
            let slices = planned(total_size as int, chunk_count as int, max_size);
            &&& covers(slices, 0, total_size as int)
            &&& max_size matches Some(max) ==> {
                &&& forall|i: int| 0 <= i < slices.len() - 1 ==> (#[trigger] slices[i]).2 == max
                &&& slices.last().2 <= max
            }
            &&& max_size is None ==> {
                &&& slices.len() == chunk_count
                &&& forall|i: int, j: int|
                    0 <= i < slices.len() - 1 && 0 <= j < slices.len() - 1 ==> (
                    #[trigger] slices[i]).2 == (#[trigger] slices[j]).2
                &&& forall|i: int|
                    0 <= i < slices.len() - 1 ==> (#[trigger] slices[i]).2 <= slices.last().2
                        < slices[i].2 + chunk_count
            }
        }),
{
    let slices = planned(total_size as int, chunk_count as int, max_size);
    match max_size {
        Some(max) => law_sized_slices_cover_file(total_size, max),
        None => {
            law_chunks_cover_file(total_size, chunk_count, 0);
            law_chunks_are_of_one_length(total_size, chunk_count, 0);
        },
    }
}

/// The parts of a file begin where they are moved to, all but the last have the
/// same length, and the last one takes less than a byte for each of them more.
pub proof fn law_chunks_are_of_one_length(total: u64, count: usize, start2: u64)
    requires
        1 <= count <= total,
        total - 1 + start2 <= u64::MAX,
    ensures
        ({
            let slices = chunk_slices(total as int, count as int, start2 as int);
            &&& slices.first().0 == start2
            &&& forall|i: int, j: int|
                0 <= i < slices.len() - 1 && 0 <= j < slices.len() - 1 ==> (
                #[trigger] slices[i]).2 == (#[trigger] slices[j]).2
            &&& forall|i: int|
                0 <= i < slices.len() - 1 ==> (#[trigger] slices[i]).2 <= slices.last().2
                    < slices[i].2 + count
        }),
{
    let slices = chunk_slices(total as int, count as int, start2 as int);
    let size = total as int / count as int;
    law_chunks_cover_file(total, count, start2);
    assert forall|i: int| 0 <= i < slices.len() - 1 implies (#[trigger] slices[i]).2 == size by {
        lemma_chunk_bounds(total as int, count as int, i);
    }
    let last = count - 1;
    lemma_chunk_bounds(total as int, count as int, last);
    div_mod::lemma_fundamental_div_mod(total as int, count as int);
    div_mod::lemma_mod_bound(total as int, count as int);
    assert(count * size == last * size + size) by (nonlinear_arith)
        requires
            last == count - 1,
    ;
    assert(slices.last().2 == total - last * size);
}

/// A server that serves byte ranges and tells the length of a file has it fetched
/// in slices, and all of it, however long it is.
pub proof fn law_length_is_taken_as_it_is_told(n: u64)
    ensures
        mode_of(Some("bytes"@), Some(text::decimal(n as nat))) == (DownloadMode::Chunks {
            total_size: n,
        }),
{
    text::law_decimal_reads_back(n);
}

/// A file is fetched in one piece if the server does not serve byte ranges, or
/// tells no length, or tells one that is no number; otherwise in slices, of the
/// length that the server tells.
pub proof fn law_slices_need_ranges_and_a_length(
    accept_ranges: Option<Seq<char>>,
    content_length: Option<Seq<char>>,
)
    ensures
        accept_ranges != Some("bytes"@) ==> mode_of(accept_ranges, content_length) is Whole,
        content_length is None ==> mode_of(accept_ranges, content_length) is Whole,
        content_length matches Some(told) ==> match text::whole_number(told) {
            Some(n) => accept_ranges == Some("bytes"@) ==> mode_of(accept_ranges, content_length)
                == (DownloadMode::Chunks { total_size: n }),
            None => mode_of(accept_ranges, content_length) is Whole,
        },
{
}

/// A header is taken as it is.
pub proof fn law_headers_are_taken_as_they_are(s: &str)
    ensures
        view_opt(Some(s)) == Some(s@),
        view_opt(None) is None,
{
}

/// A range names its two ends: the first byte between the equals sign and the
/// dash, and the last byte behind the dash.
pub proof fn law_range_names_its_ends(start: u64, end: u64)
    ensures
        ({
            let range = range_of(start as nat, end as nat);
            exists|dash: int|
                {
                    &&& 6 <= dash < range.len()
                    &&& range.take(6) == seq!['b', 'y', 't', 'e', 's', '=']
                    &&& #[trigger] range[dash] == '-'
                    &&& text::whole_number(range.subrange(6, dash)) == Some(start)
                    &&& text::whole_number(range.skip(dash + 1)) == Some(end)
                    &&& forall|i: int|
                        6 <= i < range.len() && i != dash ==> 48 <= (#[trigger] range[i]) as int
                            <= 57
                }
        }),
{
    reveal_strlit("bytes=");
    reveal_strlit("-");
    text::law_decimal_reads_back(start);
    text::law_decimal_reads_back(end);
    text::lemma_decimal(start as nat);
    text::lemma_decimal(end as nat);
    let first = text::decimal(start as nat);
    let last = text::decimal(end as nat);
    let range = range_of(start as nat, end as nat);
    let dash = 6 + first.len() as int;
    assert(range.take(6) =~= seq!['b', 'y', 't', 'e', 's', '=']);
    assert(range[dash] == '-');
    assert(range.subrange(6, dash) =~= first);
    assert(range.skip(dash + 1) =~= last);
    assert forall|i: int| 6 <= i < range.len() && i != dash implies 48 <= (#[trigger] range[i]) as int
        <= 57 by {
        if i < dash {
            assert(range[i] == first[i - 6]);
        } else {
            assert(range[i] == last[i - dash - 1]);
        }
    }
}

/// A request for a slice asks for just the bytes of the slice.
pub proof fn law_request_asks_for_the_slice(
    slice: (u64, u64, u64),
    max_try: u32,
    action: ChunkAction,
)
    requires
        ChunkFetch::of(slice, max_try).asks(action),
    ensures
        action matches ChunkAction::Request { range } && range@ == range_of(
            slice.0 as nat,
            slice.1 as nat,
        ),
{
}

/// The first step for a slice that is not skipped is a request, unless none is
/// allowed; then the slice is given up.
pub proof fn law_first_request(slice: (u64, u64, u64), max_try: u32, action: ChunkAction)
    requires
        ChunkFetch::of(slice, max_try).continues(action),
    ensures
        max_try > 0 ==> ChunkFetch::of(slice, max_try).asks(action),
        max_try == 0 ==> action == (ChunkAction::Stop { complete: false }),
        ChunkFetch::of(slice, max_try).tries == max_try,
{
}

/// A slice is only skipped when the download is resumed, there is a temporary
/// file, and it has the length of the slice.
pub proof fn law_slice_is_skipped_when_resumed_and_complete(
    slice: (u64, u64, u64),
    max_try: u32,
    existing: Option<u64>,
    resumable: bool,
)
    ensures
        ChunkFetch::of(slice, max_try).skips(existing, resumable) <==> (resumable && existing
            == Some(slice.2)),
{
}

/// A request that could not be sent, or whose answer broke off, is made again as
/// long as one is left, and each of them counts; a complete answer ends the
/// fetching with a complete slice; a cancellation ends it with an incomplete one.
pub proof fn law_slice_steps(fetch: ChunkFetch, event: ChunkEvent, action: ChunkAction)
    requires
        fetch.tries > 0,
        fetch.answers(event, action),
    ensures
        match event {
            ChunkEvent::Unsent | ChunkEvent::BrokenOff { cancelled: false } => {
                &&& fetch.tries > 1 ==> fetch.asks(action)
                &&& fetch.tries == 1 ==> action == (ChunkAction::Stop { complete: false })
            },
            ChunkEvent::Received { cancelled: false } => action == (ChunkAction::Stop {
                complete: true,
            }),
            _ => action == (ChunkAction::Stop { complete: false }),
        },
        match event {
            ChunkEvent::Cancelled
            | ChunkEvent::BrokenOff { cancelled: true }
            | ChunkEvent::Received { cancelled: true } => fetch.after(event) == fetch,
            _ => fetch.after(event) == (ChunkFetch { tries: (fetch.tries - 1) as u32, ..fetch }),
        },
{
}

/// An attempt that failed is made again as long as one is left, and each of them
/// counts; a complete one ends the fetching with a complete file; a cancellation
/// ends it without one.
pub proof fn law_whole_steps(fetch: WholeFetch, event: WholeEvent)
    requires
        fetch.tries > 0,
    ensures
        match event {
            WholeEvent::Cancelled => fetch.answer(event) is Abandon && fetch.after(event) == fetch,
            WholeEvent::Ended { complete, cancelled } => if cancelled {
                &&& fetch.answer(event) == (WholeAction::Finish { complete: false })
                &&& fetch.after(event) == fetch
            } else {
                &&& fetch.after(event).tries == fetch.tries - 1
                &&& fetch.answer(event) == (if complete {
                    WholeAction::Finish { complete: true }
                } else if fetch.tries > 1 {
                    WholeAction::Request
                } else {
                    WholeAction::Finish { complete: false }
                })
            },
        },
        fetch.attempt() is Request,
        (WholeFetch { tries: 0 }).attempt() == (WholeAction::Finish { complete: false }),
{
}

/// An undisturbed merge writes the slices in their order and then cleans up. A
/// cancelled one never cleans up: behind a slice the file is removed.
pub proof fn law_merge_steps(done: usize, count: usize)
    requires
        done <= count,
    ensures
        done < count ==> merge_action(done, count, false) == (MergeAction::Append { index: done }),
        done == count ==> merge_action(done, count, false) is Clean,
        !(merge_action(done, count, true) is Clean),
        done > 0 ==> merge_action(done, count, true) is Discard,
        done == 0 && count > 0 ==> merge_action(done, count, true) == (MergeAction::Append {
            index: 0,
        }),
        done == 0 && count == 0 ==> merge_action(done, count, true) is Fail,
{
}

/// The slices of the file `stem.extension` in a directory lie in its
/// subdirectory `tmp`, under the name `stem.tmp` with the number of the slice
/// behind it.
pub proof fn law_temp_file_lies_in_tmp(
    dir: Seq<char>,
    stem: Seq<char>,
    extension: Seq<char>,
    index: nat,
)
    requires
        dir.len() > 0,
        dir.last() != '/',
        dir.len() > 1 && dir.last() == '.' ==> dir[dir.len() - 2] != '/',
        stem.len() > 0,
        forall|i: int| 0 <= i < stem.len() ==> #[trigger] stem[i] != '/',
        forall|i: int|
            0 <= i < extension.len() ==> #[trigger] extension[i] != '/' && extension[i] != '.',
        paths::plain_name(stem.push('.') + extension),
    ensures
        ({
            let name = stem.push('.') + extension;
            let base = dir.push('/') + name;
            let end = stem + seq!['.', 't', 'm', 'p'] + text::decimal(index);
            &&& temp_dir_of(base) == dir + seq!['/', 't', 'm', 'p']
            &&& temp_path_of(base, index) == dir + seq!['/', 't', 'm', 'p', '/'] + end
            &&& temp_dir_of(name) == seq!['t', 'm', 'p']
            &&& temp_path_of(name, index) == seq!['t', 'm', 'p', '/'] + end
        }),
{
    let name = stem.push('.') + extension;
    let base = dir.push('/') + name;
    reveal_strlit("tmp");
    reveal_strlit(".tmp");
    assert("tmp"@ =~= seq!['t', 'm', 'p']);
    assert(".tmp"@ =~= seq!['.', 't', 'm', 'p']);
    paths::law_stem_stands_in_front_of_the_last_dot(dir, stem, extension);
    paths::law_parent_stands_in_front_of_the_name(dir, name);
    paths::law_one_slash_joins(dir, "tmp"@);
    let none = Seq::<char>::empty();
    let tmp = dir + seq!['/', 't', 'm', 'p'];
    assert(dir.push('/') + "tmp"@ =~= tmp);
    assert(temp_dir_of(base) == tmp);
    assert(temp_dir_of(name) == "tmp"@);
    let end = stem + seq!['.', 't', 'm', 'p'] + text::decimal(index);
    assert(temp_name(stem, index) == end);
    paths::law_one_slash_joins(tmp, end);
    paths::law_one_slash_joins("tmp"@, end);
    assert(tmp.last() == 'p');
    assert(tmp.push('/') + end =~= dir + seq!['/', 't', 'm', 'p', '/'] + end);
    assert("tmp"@.push('/') + end =~= seq!['t', 'm', 'p', '/'] + end);
}

/// Wherever a file lies, its slices lie in the directory `tmp` beside it, or in
/// the directory `tmp` below a path that has no parent.
pub proof fn law_temp_files_lie_beside_the_file(base: Seq<char>, index: nat)
    ensures
        ({
            let beside = match paths::parent_of(base) {
                Some(dir) => dir,
                None => base,
            };
            let stem = match paths::stem_of(base) {
                Some(stem) => stem,
                None => Seq::empty(),
            };
            &&& temp_dir_of(base) == paths::joined(beside, seq!['t', 'm', 'p'])
            &&& temp_path_of(base, index) == paths::joined(
                paths::joined(beside, seq!['t', 'm', 'p']),
                stem + seq!['.', 't', 'm', 'p'] + text::decimal(index),
            )
        }),
{
    reveal_strlit("tmp");
    reveal_strlit(".tmp");
    assert("tmp"@ =~= seq!['t', 'm', 'p']);
    assert(".tmp"@ =~= seq!['.', 't', 'm', 'p']);
}

/// Cutting every so many bytes: each slice but the last has just that many, and
/// the slices cover the file. Without a size there are none.
pub proof fn law_slice_chunk_size(
    total_size: u64,
    max: u64,
    r: Vec<(u64, u64, u64)>,
    none: Vec<(u64, u64, u64)>,
)
    requires
        1 <= total_size,
        1 <= max,
        call_ensures(slice_chunk_size, (total_size, Some(max)), r),
        call_ensures(slice_chunk_size, (total_size, None), none),
    ensures
        covers(r@, 0, total_size as int),
        forall|i: int| 0 <= i < r@.len() - 1 ==> (#[trigger] r@[i]).2 == max,
        r@.last().2 <= max,
        none@.len() == 0,
{
    law_sized_slices_cover_file(total_size, max);
}

/// Cutting into parts: there are as many as asked for, and they cover the file
/// from where it is moved to.
pub proof fn law_slice_chunk(
    total_size: u64,
    chunk_count: usize,
    start2: u64,
    r: Vec<(u64, u64, u64)>,
)
    requires
        1 <= chunk_count <= total_size,
        total_size - 1 + start2 <= u64::MAX,
        call_ensures(slice_chunk, (total_size, chunk_count, start2), r),
    ensures
        covers(r@, start2 as int, start2 + total_size),
        r@.len() == chunk_count,
        forall|i: int| 0 <= i < r@.len() - 1 ==> (#[trigger] r@[i]).2 <= r@.last().2 < r@[i].2
            + chunk_count,
{
    law_chunks_cover_file(total_size, chunk_count, start2);
    law_chunks_are_of_one_length(total_size, chunk_count, start2);
}

/// The planned slices cover the file and, put one behind the other, give it
/// back. With a size all of them but the last have just that size and the last
/// is not longer; without one there are as many as asked for.
pub proof fn law_plan_slices(
    file: Seq<u8>,
    total_size: u64,
    chunk_count: usize,
    max_size: Option<u64>,
    r: Vec<(u64, u64, u64)>,
)
    requires
        file.len() == total_size,
        1 <= total_size,
        1 <= chunk_count,
        max_size is None ==> chunk_count <= total_size,
        max_size matches Some(max) ==> 1 <= max,
        call_ensures(plan_slices, (total_size, chunk_count, max_size), r),
    ensures
        covers(r@, 0, total_size as int),
        merged(file, r@) == file,
        max_size matches Some(max) ==> r@.last().2 <= max && forall|i: int|
            0 <= i < r@.len() - 1 ==> (#[trigger] r@[i]).2 == max,
        max_size is None ==> r@.len() == chunk_count,
{
    law_planned_slices_have_the_size_asked_for(total_size, chunk_count, max_size);
    law_merged_slices_are_the_file(file, r@);
}

/// A file can be cut as asked or it cannot.
pub proof fn law_can_plan(total_size: u64, chunk_count: usize, max_size: Option<u64>, r: bool)
    requires
        call_ensures(can_plan, (total_size, chunk_count, max_size), r),
    ensures
        max_size is None ==> (r <==> 1 <= chunk_count <= total_size),
        max_size matches Some(max) ==> (r <==> 1 <= chunk_count && 1 <= max && 1 <= total_size),
{
}

/// When an interrupted download cannot be resumed, just the temporary files of
/// its slices are removed; when it can, nothing is.
pub proof fn law_leftovers_are_the_temporary_files(
    filename: &str,
    count: usize,
    kept: Vec<String>,
    removed: Vec<String>,
    index: usize,
    path: String,
)
    requires
        call_ensures(leftovers, (filename, count, true), kept),
        call_ensures(leftovers, (filename, count, false), removed),
        call_ensures(temp_chunk_path, (filename, index), path),
        index < count,
    ensures
        kept@.len() == 0,
        removed@.len() == count,
        removed@[index as int]@ == path@,
{
}

/// A download that was cancelled fails, and so does one of which a part is
/// missing; any other ends well.
pub proof fn law_how_a_download_ends(
    complete: bool,
    cancelled: bool,
    slices: Vec<bool>,
    whole: Result<(), String>,
    in_slices: Result<(), String>,
    refused: Result<(), String>,
    looked: Result<(), String>,
)
    requires
        call_ensures(download_result, (complete, cancelled), whole),
        call_ensures(slices_result, (&slices, cancelled), in_slices),
        call_ensures(refuse_cancelled, (cancelled,), refused),
        call_ensures(is_cancel, (cancelled,), looked),
    ensures
        cancelled ==> whole is Err && in_slices is Err && refused is Err && looked is Err,
        !cancelled ==> (whole is Ok <==> complete) && refused is Ok && looked is Ok,
        !cancelled ==> (in_slices is Err <==> exists|i: int|
            0 <= i < slices@.len() && !#[trigger] slices@[i]),
        cancelled ==> whole->Err_0@ == "Download cancelled"@ && looked->Err_0@ == "Error"@,
{
}

/// The mode that a server's headers call for.
pub proof fn law_download_mode(
    n: u64,
    ranges: &str,
    length: &str,
    r: DownloadMode,
    silent: DownloadMode,
)
    requires
        call_ensures(download_mode, (Some(ranges), Some(length)), r),
        call_ensures(download_mode, (None, Some(length)), silent),
    ensures
        ranges@ == "bytes"@ && length@ == text::decimal(n as nat) ==> r == (DownloadMode::Chunks {
            total_size: n,
        }),
        ranges@ != "bytes"@ ==> r is Whole,
        text::whole_number(length@) is None ==> r is Whole,
        silent is Whole,
{
    law_length_is_taken_as_it_is_told(n);
}

/// The first step for a slice: nothing if it is complete and the download is
/// resumed, otherwise a request for its bytes, if one is allowed.
pub proof fn law_begin_slice(
    slice: (u64, u64, u64),
    max_try: u32,
    fetch: ChunkFetch,
    existing: Option<u64>,
    resumable: bool,
    action: ChunkAction,
)
    requires
        call_ensures(ChunkFetch::new, (slice, max_try), fetch),
        call_ensures(ChunkFetch::begin, (&fetch, existing, resumable), action),
    ensures
        action is Skip <==> resumable && existing == Some(slice.2),
        action matches ChunkAction::Skip { bytes } ==> bytes == slice.2,
        !(action is Skip) && max_try > 0 ==> (action matches ChunkAction::Request { range } && range@
            == range_of(slice.0 as nat, slice.1 as nat)),
        !(action is Skip) && max_try == 0 ==> action == (ChunkAction::Stop { complete: false }),
{
}

/// The step behind a request for a slice: a failed one is made again, for the
/// same bytes, as long as one is left; a complete answer and a cancellation end
/// the fetching.
pub proof fn law_advance_slice(fetch: &mut ChunkFetch, event: ChunkEvent, r: (ChunkAction, bool))
    requires
        old(fetch).tries > 0,
        call_ensures(ChunkFetch::advance, (fetch, event), r),
    ensures
        final(fetch).start == old(fetch).start,
        final(fetch).end == old(fetch).end,
        final(fetch).length == old(fetch).length,
        event is Unsent || event == (ChunkEvent::BrokenOff { cancelled: false }) ==> {
            &&& final(fetch).tries == old(fetch).tries - 1
            &&& r.1
            &&& final(fetch).tries > 0 ==> (r.0 matches ChunkAction::Request { range } && range@
                == range_of(old(fetch).start as nat, old(fetch).end as nat))
            &&& final(fetch).tries == 0 ==> r.0 == (ChunkAction::Stop { complete: false })
        },
        event == (ChunkEvent::Received { cancelled: false }) ==> {
            &&& r.0 == (ChunkAction::Stop { complete: true })
            &&& !r.1
        },
        event is Cancelled || event == (ChunkEvent::BrokenOff { cancelled: true }) || event == (
        ChunkEvent::Received { cancelled: true }) ==> r.0 == (ChunkAction::Stop {
            complete: false,
        }) && final(fetch).tries == old(fetch).tries,
{
}

/// The step behind an attempt on a whole file.
pub proof fn law_advance_whole(
    fetch: &mut WholeFetch,
    complete: bool,
    cancelled: bool,
    first: WholeAction,
    r: (WholeAction, bool),
)
    requires
        old(fetch).tries > 0,
        call_ensures(WholeFetch::begin, (&*old(fetch),), first),
        call_ensures(
            WholeFetch::advance,
            (fetch, WholeEvent::Ended { complete, cancelled }),
            r,
        ),
    ensures
        first is Request,
        cancelled ==> r.0 == (WholeAction::Finish { complete: false }),
        !cancelled && complete ==> r.0 == (WholeAction::Finish { complete: true }),
        !cancelled && !complete ==> {
            &&& final(fetch).tries == old(fetch).tries - 1
            &&& r.0 == (if old(fetch).tries > 1 {
                WholeAction::Request
            } else {
                WholeAction::Finish { complete: false }
            })
        },
{
}

/// A whole file whose download is cancelled while it is fetched is given up.
pub proof fn law_cancelled_whole(fetch: &mut WholeFetch, r: (WholeAction, bool))
    requires
        old(fetch).tries > 0,
        call_ensures(WholeFetch::advance, (fetch, WholeEvent::Cancelled), r),
    ensures
        r == (WholeAction::Abandon, false),
        *final(fetch) == *old(fetch),
{
}

/// The step of a merge.
pub proof fn law_merge_step(
    done: usize,
    count: usize,
    undisturbed: MergeAction,
    cancelled: MergeAction,
)
    requires
        done <= count,
        call_ensures(merge_step, (done, count, false), undisturbed),
        call_ensures(merge_step, (done, count, true), cancelled),
    ensures
        done < count ==> undisturbed == (MergeAction::Append { index: done }),
        done == count ==> undisturbed is Clean,
        !(cancelled is Clean),
        done > 0 ==> cancelled is Discard,
{
    law_merge_steps(done, count);
}

/// The cancel flag is looked at with every hundredth piece, and at no other.
pub proof fn law_every_hundredth_piece(
    probe: &mut CancelProbe,
    fresh: CancelProbe,
    cancelled: bool,
    r: bool,
)
    requires
        call_ensures(CancelProbe::new, (), fresh),
        old(probe).wf(),
        call_ensures(CancelProbe::stops, (probe, cancelled), r),
    ensures
        fresh.counter == 0,
        old(probe).counter <= 99,
        r <==> cancelled && old(probe).counter == 99,
        final(probe).counter == (if old(probe).counter == 99 {
            0
        } else {
            old(probe).counter + 1
        }),
{
}

/// The header that asks for a range names its two ends, and the temporary file of
/// a slice lies where it belongs.
pub proof fn law_range_header_and_temp_path(
    start: u64,
    end: u64,
    header: String,
    base: &str,
    index: usize,
    path: String,
    dir: String,
)
    requires
        call_ensures(range_header, (start, end), header),
        call_ensures(temp_chunk_path, (base, index), path),
        call_ensures(temp_dir, (base,), dir),
    ensures
        header@ == seq!['b', 'y', 't', 'e', 's', '='] + text::decimal(start as nat) + seq!['-']
            + text::decimal(end as nat),
        path@ == temp_path_of(base@, index as nat),
        path@.len() > dir@.len(),
        path@.take(dir@.len() as int) == dir@,
{
    reveal_strlit("bytes=");
    reveal_strlit("-");
    assert("bytes="@ =~= seq!['b', 'y', 't', 'e', 's', '=']);
    assert("-"@ =~= seq!['-']);
    text::lemma_decimal(index as nat);
    reveal_strlit(".tmp");
    assert(path@.take(dir@.len() as int) =~= dir@);
}

}
