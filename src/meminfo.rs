//! Parsing of the kernel's memory-information text (`/proc/meminfo` format)
//! into a snapshot of huge-page statistics.
use vstd::prelude::*;
use vstd::string::StringSliceAdditionalSpecFns;

verus! {

/// ASCII whitespace, as `str::trim` removes it.
pub open spec fn is_space(c: u8) -> bool {
    c == 32 || (9 <= c && c <= 13)
}

pub open spec fn is_digit(c: u8) -> bool {
    48 <= c && c <= 57
}

/// The bytes with leading whitespace removed.
pub open spec fn trim_start(s: Seq<u8>) -> Seq<u8>
    decreases s.len(),
{
    if s.len() > 0 && is_space(s[0]) {
        trim_start(s.drop_first())
    } else {
        s
    }
}

/// The bytes with trailing whitespace removed.
pub open spec fn trim_end(s: Seq<u8>) -> Seq<u8>
    decreases s.len(),
{
    if s.len() > 0 && is_space(s.last()) {
        trim_end(s.drop_last())
    } else {
        s
    }
}

pub open spec fn trim(s: Seq<u8>) -> Seq<u8> {
    trim_end(trim_start(s))
}

/// The value of a string of decimal digits, most significant first.
pub open spec fn digits_value(s: Seq<u8>) -> nat
    decreases s.len(),
{
    if s.len() == 0 {
        0
    } else {
        digits_value(s.drop_last()) * 10 + (s.last() - 48) as nat
    }
}

pub open spec fn all_digits(s: Seq<u8>) -> bool {
    forall|i: int| 0 <= i < s.len() ==> is_digit(#[trigger] s[i])
}

/// A `usize` written in decimal: an optional `+`, then at least one digit,
/// with a value that fits in `usize`.
pub open spec fn parse_decimal(s: Seq<u8>) -> Option<usize> {
    let d = if s.len() > 0 && s[0] == 43 {
        s.drop_first()
    } else {
        s
    };
    if d.len() > 0 && all_digits(d) && digits_value(d) <= usize::MAX {
        Some(digits_value(d) as usize)
    } else {
        None
    }
}

pub open spec fn has_prefix(s: Seq<u8>, p: Seq<u8>) -> bool {
    p.len() <= s.len() && s.subrange(0, p.len() as int) == p
}

pub open spec fn has_suffix(s: Seq<u8>, p: Seq<u8>) -> bool {
    p.len() <= s.len() && s.subrange(s.len() - p.len(), s.len() as int) == p
}

fn is_space_byte(c: u8) -> (r: bool)
    ensures
        r == is_space(c),
{
    c == 32 || (9 <= c && c <= 13)
}

/// The bounds of `b[lo..hi]` with surrounding whitespace removed.
fn trim_range(b: &[u8], lo: usize, hi: usize) -> (r: (usize, usize))
    requires
        lo <= hi <= b@.len(),
    ensures
        lo <= r.0 <= r.1 <= hi,
        b@.subrange(r.0 as int, r.1 as int) == trim(b@.subrange(lo as int, hi as int)),
{
    let mut s = lo;
    while s < hi && is_space_byte(b[s])
        invariant
            lo <= s <= hi <= b@.len(),
            trim_start(b@.subrange(lo as int, hi as int)) == trim_start(
                b@.subrange(s as int, hi as int),
            ),
        decreases hi - s,
    {
        assert(b@.subrange(s as int, hi as int).drop_first() =~= b@.subrange(s + 1, hi as int));
        s = s + 1;
    }
    assert(trim_start(b@.subrange(s as int, hi as int)) == b@.subrange(s as int, hi as int));
    let mut e = hi;
    while e > s && is_space_byte(b[e - 1])
        invariant
            lo <= s <= e <= hi <= b@.len(),
            trim_start(b@.subrange(lo as int, hi as int)) == b@.subrange(s as int, hi as int),
            trim_end(b@.subrange(s as int, hi as int)) == trim_end(
                b@.subrange(s as int, e as int),
            ),
        decreases e - s,
    {
        assert(b@.subrange(s as int, e as int).drop_last() =~= b@.subrange(s as int, e - 1));
        e = e - 1;
    }
    (s, e)
}

proof fn lemma_digits_prefix(s: Seq<u8>, k: int)
    requires
        0 <= k <= s.len(),
        all_digits(s),
    ensures
        digits_value(s.subrange(0, k)) <= digits_value(s),
    decreases s.len(),
{
    if k == s.len() {
        assert(s.subrange(0, k) =~= s);
    } else {
        let t = s.drop_last();
        assert(t.subrange(0, k) =~= s.subrange(0, k));
        assert(all_digits(t)) by {
            assert forall|i: int| 0 <= i < t.len() implies is_digit(#[trigger] t[i]) by {
                assert(t[i] == s[i]);
            }
        }
        lemma_digits_prefix(t, k);
    }
}

/// The decimal number written in `b[lo..hi]`.
fn parse_decimal_range(b: &[u8], lo: usize, hi: usize) -> (r: Option<usize>)
    requires
        lo <= hi <= b@.len(),
    ensures
        r == parse_decimal(b@.subrange(lo as int, hi as int)),
{
    let ghost s = b@.subrange(lo as int, hi as int);
    let mut start = lo;
    if start < hi && b[start] == 43 {
        assert(s.drop_first() =~= b@.subrange(lo + 1, hi as int));
        start = start + 1;
    } else {
        assert(s =~= b@.subrange(start as int, hi as int));
    }
    let ghost d = b@.subrange(start as int, hi as int);
    if start == hi {
        return None;
    }
    let mut i = start;
    let mut acc: usize = 0;
    assert(b@.subrange(start as int, start as int) =~= Seq::<u8>::empty());
    while i < hi
        invariant
            lo <= start < hi <= b@.len(),
            start <= i <= hi,
            s == b@.subrange(lo as int, hi as int),
            d == b@.subrange(start as int, hi as int),
            parse_decimal(s) == (if d.len() > 0 && all_digits(d) && digits_value(d) <= usize::MAX {
                Some(digits_value(d) as usize)
            } else {
                None
            }),
            forall|k: int| start <= k < i ==> is_digit(#[trigger] b@[k]),
            acc == digits_value(b@.subrange(start as int, i as int)),
        decreases hi - i,
    {
        let c = b[i];
        if c < 48 || c > 57 {
            assert(!is_digit(d[i - start]));
            return None;
        }
        let ghost p = b@.subrange(start as int, i + 1);
        assert(p.drop_last() =~= b@.subrange(start as int, i as int));
        assert(p =~= d.subrange(0, i + 1 - start));
        let m = acc.checked_mul(10);
        if m.is_none() {
            proof {
                if all_digits(d) {
                    lemma_digits_prefix(d, i + 1 - start);
                }
            }
            return None;
        }
        let v = m.unwrap().checked_add((c - 48) as usize);
        if v.is_none() {
            proof {
                if all_digits(d) {
                    lemma_digits_prefix(d, i + 1 - start);
                }
            }
            return None;
        }
        acc = v.unwrap();
        i = i + 1;
    }
    assert(b@.subrange(start as int, i as int) =~= d);
    assert(all_digits(d)) by {
        assert forall|k: int| 0 <= k < d.len() implies is_digit(#[trigger] d[k]) by {
            assert(d[k] == b@[start + k]);
        }
    }
    Some(acc)
}

/// Whether `b[lo..hi]` starts with `p`.
fn range_has_prefix(b: &[u8], lo: usize, hi: usize, p: &[u8]) -> (r: bool)
    requires
        lo <= hi <= b@.len(),
    ensures
        r == has_prefix(b@.subrange(lo as int, hi as int), p@),
{
    let ghost line = b@.subrange(lo as int, hi as int);
    if p.len() > hi - lo {
        return false;
    }
    let mut k: usize = 0;
    while k < p.len()
        invariant
            lo <= hi <= b@.len(),
            line == b@.subrange(lo as int, hi as int),
            p@.len() <= hi - lo,
            k <= p@.len(),
            forall|j: int| 0 <= j < k ==> b@[lo + j] == #[trigger] p@[j],
        decreases p@.len() - k,
    {
        if b[lo + k] != p[k] {
            assert(line.subrange(0, p@.len() as int)[k as int] != p@[k as int]);
            return false;
        }
        k = k + 1;
    }
    assert(line.subrange(0, p@.len() as int) =~= p@);
    true
}

/// Whether `b[lo..hi]` ends with `p`.
fn range_has_suffix(b: &[u8], lo: usize, hi: usize, p: &[u8]) -> (r: bool)
    requires
        lo <= hi <= b@.len(),
    ensures
        r == has_suffix(b@.subrange(lo as int, hi as int), p@),
{
    let ghost line = b@.subrange(lo as int, hi as int);
    if p.len() > hi - lo {
        return false;
    }
    let start = hi - p.len();
    let mut k: usize = 0;
    while k < p.len()
        invariant
            lo <= start <= hi <= b@.len(),
            start + p@.len() == hi,
            line == b@.subrange(lo as int, hi as int),
            k <= p@.len(),
            forall|j: int| 0 <= j < k ==> b@[start + j] == #[trigger] p@[j],
        decreases p@.len() - k,
    {
        if b[start + k] != p[k] {
            assert(line.subrange(line.len() - p@.len(), line.len() as int)[k as int] != p@[k as int]);
            return false;
        }
        k = k + 1;
    }
    assert(line.subrange(line.len() - p@.len(), line.len() as int) =~= p@);
    true
}

/// The value on a line `<label> <number>`: the number, with the
/// surrounding whitespace ignored.
pub open spec fn count_value(line: Seq<u8>, label: Seq<u8>) -> Option<usize> {
    if has_prefix(line, label) {
        parse_decimal(trim(line.subrange(label.len() as int, line.len() as int)))
    } else {
        None
    }
}

/// The unit that follows a size given in kibibytes.
pub open spec fn kb_unit() -> Seq<u8> {
    "kB".spec_bytes()
}

/// The value on a line `<label> <number> kB`, in bytes; `None` also where
/// the byte count does not fit in `usize`.
pub open spec fn kb_value(line: Seq<u8>, label: Seq<u8>) -> Option<usize> {
    if has_prefix(line, label) {
        let rest = line.subrange(label.len() as int, line.len() as int);
        if has_suffix(rest, kb_unit()) {
            match parse_decimal(trim(rest.subrange(0, rest.len() - kb_unit().len()))) {
                Some(n) => if n * 1024 <= usize::MAX {
                    Some((n * 1024) as usize)
                } else {
                    None
                },
                None => None,
            }
        } else {
            None
        }
    } else {
        None
    }
}

fn count_value_of(b: &[u8], lo: usize, hi: usize, label: &[u8]) -> (r: Option<usize>)
    requires
        lo <= hi <= b@.len(),
    ensures
        r == count_value(b@.subrange(lo as int, hi as int), label@),
{
    if !range_has_prefix(b, lo, hi, label) {
        return None;
    }
    let start = lo + label.len();
    assert(b@.subrange(lo as int, hi as int).subrange(label@.len() as int, hi - lo) =~= b@.subrange(
        start as int,
        hi as int,
    ));
    let (s, e) = trim_range(b, start, hi);
    parse_decimal_range(b, s, e)
}

fn kb_value_of(b: &[u8], lo: usize, hi: usize, label: &[u8]) -> (r: Option<usize>)
    requires
        lo <= hi <= b@.len(),
    ensures
        r == kb_value(b@.subrange(lo as int, hi as int), label@),
{
    if !range_has_prefix(b, lo, hi, label) {
        return None;
    }
    let start = lo + label.len();
    let ghost rest = b@.subrange(lo as int, hi as int).subrange(label@.len() as int, hi - lo);
    assert(rest =~= b@.subrange(start as int, hi as int));
    let unit = "kB".as_bytes();
    if !range_has_suffix(b, start, hi, unit) {
        return None;
    }
    let end = hi - unit.len();
    assert(rest.subrange(0, rest.len() - unit@.len()) =~= b@.subrange(start as int, end as int));
    let (s, e) = trim_range(b, start, end);
    match parse_decimal_range(b, s, e) {
        Some(n) => n.checked_mul(1024),
        None => None,
    }
}

/// The line without the carriage return that ends it, if any.
pub open spec fn strip_cr(line: Seq<u8>) -> Seq<u8> {
    if line.len() > 0 && line.last() == 13 {
        line.drop_last()
    } else {
        line
    }
}

/// The lines of `t[start..]`, where the current line began at `start` and
/// the scan has reached `i`. Lines end at `\n` (a `\r` just before it is
/// dropped); the last line needs no end.
pub open spec fn split_lines(t: Seq<u8>, start: int, i: int) -> Seq<Seq<u8>>
    decreases t.len() - i,
{
    if i >= t.len() {
        if start < t.len() {
            seq![t.subrange(start, t.len() as int)]
        } else {
            seq![]
        }
    } else if t[i] == 10 {
        seq![strip_cr(t.subrange(start, i))] + split_lines(t, i + 1, i + 1)
    } else {
        split_lines(t, start, i + 1)
    }
}

/// The lines of a text, as `str::lines` gives them.
pub open spec fn lines(t: Seq<u8>) -> Seq<Seq<u8>> {
    split_lines(t, 0, 0)
}

/// The value of the last line that gives a count under `label`.
pub open spec fn last_count(ls: Seq<Seq<u8>>, label: Seq<u8>) -> Option<usize>
    decreases ls.len(),
{
    if ls.len() == 0 {
        None
    } else {
        match count_value(ls.last(), label) {
            Some(v) => Some(v),
            None => last_count(ls.drop_last(), label),
        }
    }
}

/// The value of the last line that gives a size in kB under `label`.
pub open spec fn last_kb(ls: Seq<Seq<u8>>, label: Seq<u8>) -> Option<usize>
    decreases ls.len(),
{
    if ls.len() == 0 {
        None
    } else {
        match kb_value(ls.last(), label) {
            Some(v) => Some(v),
            None => last_kb(ls.drop_last(), label),
        }
    }
}

/// A field that no line gives reads as zero.
pub open spec fn or_zero(v: Option<usize>) -> usize {
    match v {
        Some(x) => x,
        None => 0,
    }
}

/// A snapshot of the kernel's huge-page state.
#[derive(Debug, Clone, Copy)]
pub struct HugePageInfo {
    /// Bytes of anonymous mappings backed by huge pages.
    pub anon_pages: usize,
    /// Bytes of shared memory backed by huge pages.
    pub shmem_pages: usize,
    /// The default huge-page size, in bytes.
    pub size: usize,
    /// Pages in the pool.
    pub total: usize,
    /// Pages of the pool not in use.
    pub free: usize,
    /// Pages reserved for a mapping but not yet touched; the pages in use
    /// are `total - free`.
    pub rsvd: usize,
    /// Pages allocated beyond the pool from general memory; only possible
    /// where the page size is small enough (megabytes, not a gigabyte).
    pub surp: usize,
}

/// The huge-page information could not be had: the text could not be read,
/// or it gave no nonzero huge-page size.
#[derive(Debug, Clone, Copy, PartialEq, Eq)]
pub enum MeminfoError {
    Unavailable,
}

/// What a memory-information text says of each field.
pub open spec fn info_of(t: Seq<u8>) -> HugePageInfo {
    let ls = lines(t);
    HugePageInfo {
        anon_pages: or_zero(last_kb(ls, "AnonHugePages:".spec_bytes())),
        shmem_pages: or_zero(last_kb(ls, "ShmemHugePages:".spec_bytes())),
        size: or_zero(last_kb(ls, "Hugepagesize:".spec_bytes())),
        total: or_zero(last_count(ls, "HugePages_Total:".spec_bytes())),
        free: or_zero(last_count(ls, "HugePages_Free:".spec_bytes())),
        rsvd: or_zero(last_count(ls, "HugePages_Rsvd:".spec_bytes())),
        surp: or_zero(last_count(ls, "HugePages_Surp:".spec_bytes())),
    }
}

/// Reads the huge-page fields of a memory-information text. Lines that are
/// not one of the fields, or whose value is malformed, are ignored; where a
/// field appears more than once the last occurrence counts. Sizes given in
/// kB are converted to bytes. Fails when no nonzero huge-page size is given.
pub fn parse_meminfo(text: &str) -> (r: Result<HugePageInfo, MeminfoError>)
    ensures
        r is Ok <==> info_of(text.spec_bytes()).size > 0,
        r is Ok ==> r->Ok_0 == info_of(text.spec_bytes()),
        r is Err ==> r->Err_0 == MeminfoError::Unavailable,
{
    let b = text.as_bytes();
    let ghost t = b@;
    let n = b.len();
    let size_label = "Hugepagesize:".as_bytes();
    let anon_label = "AnonHugePages:".as_bytes();
    let shmem_label = "ShmemHugePages:".as_bytes();
    let total_label = "HugePages_Total:".as_bytes();
    let free_label = "HugePages_Free:".as_bytes();
    let rsvd_label = "HugePages_Rsvd:".as_bytes();
    let surp_label = "HugePages_Surp:".as_bytes();
    let mut size: usize = 0;
    let mut anon_pages: usize = 0;
    let mut shmem_pages: usize = 0;
    let mut total: usize = 0;
    let mut free: usize = 0;
    let mut rsvd: usize = 0;
    let mut surp: usize = 0;
    let mut start: usize = 0;
    let ghost mut done: Seq<Seq<u8>> = seq![];
    assert(done + split_lines(t, 0, 0) =~= lines(t));
    while start < n
        invariant
            t == b@,
            n == b@.len(),
            start <= n,
            lines(t) == done + split_lines(t, start as int, start as int),
            size == or_zero(last_kb(done, size_label@)),
            anon_pages == or_zero(last_kb(done, anon_label@)),
            shmem_pages == or_zero(last_kb(done, shmem_label@)),
            total == or_zero(last_count(done, total_label@)),
            free == or_zero(last_count(done, free_label@)),
            rsvd == or_zero(last_count(done, rsvd_label@)),
            surp == or_zero(last_count(done, surp_label@)),
        decreases n - start,
    {
        let mut j = start;
        while j < n && b[j] != 10
            invariant
                t == b@,
                n == b@.len(),
                start <= j <= n,
                split_lines(t, start as int, start as int) == split_lines(t, start as int, j as int),
            decreases n - j,
        {
            j = j + 1;
        }
        let hi;
        let next;
        if j < n {
            if j > start && b[j - 1] == 13 {
                hi = j - 1;
                assert(t.subrange(start as int, j as int).drop_last() =~= t.subrange(start as int, hi as int));
            } else {
                hi = j;
            }
            next = j + 1;
        } else {
            hi = n;
            next = n;
        }
        let ghost line = t.subrange(start as int, hi as int);
        assert(split_lines(t, start as int, start as int) =~= seq![line] + split_lines(
            t,
            next as int,
            next as int,
        ));
        if let Some(v) = kb_value_of(b, start, hi, size_label) {
            size = v;
        }
        if let Some(v) = kb_value_of(b, start, hi, anon_label) {
            anon_pages = v;
        }
        if let Some(v) = kb_value_of(b, start, hi, shmem_label) {
            shmem_pages = v;
        }
        if let Some(v) = count_value_of(b, start, hi, total_label) {
            total = v;
        }
        if let Some(v) = count_value_of(b, start, hi, free_label) {
            free = v;
        }
        if let Some(v) = count_value_of(b, start, hi, rsvd_label) {
            rsvd = v;
        }
        if let Some(v) = count_value_of(b, start, hi, surp_label) {
            surp = v;
        }
        proof {
            let d2 = done.push(line);
            assert(d2.drop_last() =~= done);
            assert(d2.last() == line);
            assert(done + (seq![line] + split_lines(t, next as int, next as int)) =~= d2
                + split_lines(t, next as int, next as int));
            done = d2;
        }
        start = next;
    }
    assert(done =~= lines(t));
    if size > 0 {
        Ok(HugePageInfo { anon_pages, shmem_pages, size, total, free, rsvd, surp })
    } else {
        Err(MeminfoError::Unavailable)
    }
}

/// The huge-page size to cache from a query: its size, or 0 ("unknown")
/// where the query failed.
pub fn page_size_of(query: &Result<HugePageInfo, MeminfoError>) -> (r: usize)
    ensures
        r == match query {
            Ok(info) => info.size,
            Err(_) => 0,
        },
{
    match query {
        Ok(info) => info.size,
        Err(_) => 0,
    }
}

} // verus!
