//! Splitting the sections of `mapping.txt` into chunk files: which rows each chunk holds, what
//! the files are called, and when chunks are written at all.

use vstd::prelude::*;

use crate::chars::{decimal, push_decimal, push_str};

verus! {

/// The rows `1..=total` cut into consecutive ranges of `rows` rows, the last one possibly
/// shorter: `r` holds them, first to last, as `(first row, last row)`.
pub open spec fn chunks_cover(r: Seq<(usize, usize)>, total: nat, rows: nat) -> bool {
    &&& total == 0 ==> r.len() == 0
    &&& total > 0 ==> {
        &&& r.len() > 0
        &&& r[0].0 == 1
        &&& r.last().1 == total
        &&& r.last().1 - r.last().0 + 1 <= rows
    }
    &&& forall|k: int| 0 <= k < r.len() ==> #[trigger] r[k].0 <= r[k].1
    &&& forall|k: int|
        0 <= k < r.len() - 1 ==> #[trigger] r[k].1 - r[k].0 + 1 == rows && r[k + 1].0 == r[k].1 + 1
}

/// The row ranges of the chunks of a section of `total` rows, `rows` rows per chunk.
pub fn chunk_ranges(total: usize, rows: usize) -> (r: Vec<(usize, usize)>)
    requires
        rows > 0,
    ensures
        chunks_cover(r@, total as nat, rows as nat),
{
    let mut r: Vec<(usize, usize)> = Vec::new();
    let mut done: usize = 0;
    while done < total
        invariant
            done <= total,
            rows > 0,
            done == 0 <==> r@.len() == 0,
            r@.len() > 0 ==> r@[0].0 == 1 && r@.last().1 == done,
            forall|k: int| 0 <= k < r@.len() ==> #[trigger] r@[k].0 <= r@[k].1,
            forall|k: int|
                0 <= k < r@.len() - 1 ==> #[trigger] r@[k].1 - r@[k].0 + 1 == rows && r@[k + 1].0 == r@[k].1 + 1,
            r@.len() > 0 ==> r@.last().1 - r@.last().0 + 1 == rows || done == total,
            r@.len() > 0 ==> r@.last().1 - r@.last().0 + 1 <= rows,
        decreases total - done,
    {
        let start = done + 1;
        let end = if total - done <= rows { total } else { done + rows };
        let ghost before = r@;
        r.push((start, end));
        assert(forall|k: int| 0 <= k < before.len() ==> r@[k] == before[k]);
        done = end;
    }
    r
}

/// `n` in decimal, padded with leading zeros to at least `width` digits.
pub open spec fn zero_padded(n: nat, width: nat) -> Seq<char> {
    let d = decimal(n);
    if d.len() >= width {
        d
    } else {
        Seq::new((width - d.len()) as nat, |i: int| '0') + d
    }
}

pub proof fn lemma_decimal_len(n: nat)
    ensures
        decimal(n).len() >= 1,
        n < 10 ==> decimal(n).len() == 1,
        10 <= n < 100 ==> decimal(n).len() == 2,
        100 <= n < 1000 ==> decimal(n).len() == 3,
        n >= 1000 ==> decimal(n).len() >= 4,
    decreases n,
{
    if n >= 10 {
        lemma_decimal_len(n / 10);
    }
}

/// The name of chunk `index` of a section: `slug-0001.txt`.
pub open spec fn chunk_file_text(slug: Seq<char>, index: nat) -> Seq<char> {
    slug + "-"@ + zero_padded(index, 4) + ".txt"@
}

/// The name of chunk `index` (counted from 1) of the section `slug`.
pub fn chunk_file_name(slug: &str, index: usize) -> (r: String)
    ensures
        r@ == chunk_file_text(slug@, index as nat),
{
    proof {
        lemma_decimal_len(index as nat);
    }
    let mut s = String::new();
    push_str(&mut s, slug);
    push_str(&mut s, "-");
    let ghost head = s@;
    if index < 10 {
        push_str(&mut s, "000");
    } else if index < 100 {
        push_str(&mut s, "00");
    } else if index < 1000 {
        push_str(&mut s, "0");
    }
    proof {
        reveal_strlit("000");
        reveal_strlit("00");
        reveal_strlit("0");
        let d = decimal(index as nat);
        if d.len() < 4 {
            assert(s@ =~= head + Seq::new((4 - d.len()) as nat, |i: int| '0'));
        } else {
            assert(s@ =~= head);
        }
    }
    push_decimal(&mut s, index as u64);
    push_str(&mut s, ".txt");
    s
}

/// Chunks are written when some section has more rows than the preview shows.
pub fn chunking_needed(totals: &[usize], preview_limit: usize) -> (r: bool)
    ensures
        r == exists|k: int| 0 <= k < totals@.len() && #[trigger] totals@[k] > preview_limit,
{
    let mut i: usize = 0;
    while i < totals.len()
        invariant
            i <= totals.len(),
            forall|k: int| 0 <= k < i ==> #[trigger] totals@[k] <= preview_limit,
        decreases totals.len() - i,
    {
        if totals[i] > preview_limit {
            assert(totals@[i as int] > preview_limit);
            return true;
        }
        i = i + 1;
    }
    false
}

/// How many of a section's `total` rows the preview shows, and whether it cuts some off.
pub fn preview_rows(total: usize, max_rows: Option<usize>) -> (r: (usize, bool))
    ensures
        ({
            let limit = match max_rows {
                Some(m) => m,
                None => total,
            };
            r == (if total < limit { total } else { limit }, total > limit)
        }),
{
    let limit = match max_rows {
        Some(m) => m,
        None => total,
    };
    (if total < limit { total } else { limit }, total > limit)
}

} // verus!
