//! How long a scan took and what it used.

use crate::decimal::{parse_u64, unsigned_value};
use crate::text::{chars_of, slice_text, split, split_text, starts_with, trim, trimmed, views};
use vstd::prelude::*;

verus! {

/// What a scan took and found.
#[derive(Debug, Clone)]
pub struct BenchResult {
    /// Elapsed time in milliseconds.
    pub wall_ms: u64,
    /// User CPU time in milliseconds.
    pub user_ms: u64,
    /// System CPU time in milliseconds.
    pub sys_ms: u64,
    /// Peak resident set size in kilobytes.
    pub peak_rss_kb: u64,
    pub total_files: u64,
    pub total_dirs: u64,
    pub total_bytes: u64,
    pub error_count: u32,
    /// Bytes read from storage.
    pub read_bytes: u64,
    /// Bytes written to storage.
    pub write_bytes: u64,
}

/// What the process has used up to a moment.
#[derive(Debug, Clone, Copy)]
pub struct ResourceSnapshot {
    pub user_us: u64,
    pub sys_us: u64,
    pub read_bytes: u64,
    pub write_bytes: u64,
}

/// What was used in between, nothing where a counter went back.
pub open spec fn used(before: u64, after: u64) -> u64 {
    if after >= before {
        (after - before) as u64
    } else {
        0
    }
}

fn used_since(before: u64, after: u64) -> (r: u64)
    ensures
        r == used(before, after),
{
    if after >= before {
        after - before
    } else {
        0
    }
}

impl ResourceSnapshot {
    /// What was used from this moment to a later one.
    pub fn delta(&self, after: &ResourceSnapshot) -> (r: ResourceSnapshot)
        ensures
            r.user_us == used(self.user_us, after.user_us),
            r.sys_us == used(self.sys_us, after.sys_us),
            r.read_bytes == used(self.read_bytes, after.read_bytes),
            r.write_bytes == used(self.write_bytes, after.write_bytes),
    {
        ResourceSnapshot {
            user_us: used_since(self.user_us, after.user_us),
            sys_us: used_since(self.sys_us, after.sys_us),
            read_bytes: used_since(self.read_bytes, after.read_bytes),
            write_bytes: used_since(self.write_bytes, after.write_bytes),
        }
    }
}

/// What a scan found.
#[derive(Debug, Clone, Copy)]
pub struct ScanMetrics {
    pub total_files: u64,
    pub total_dirs: u64,
    pub total_bytes: u64,
    pub error_count: u32,
}

/// The result of a measurement.
pub open spec fn is_bench(before: ResourceSnapshot, after: ResourceSnapshot, peak_rss_kb: u64, m: ScanMetrics, r: BenchResult) -> bool {
    &&& r.user_ms == used(before.user_us, after.user_us) / 1000
    &&& r.sys_ms == used(before.sys_us, after.sys_us) / 1000
    &&& r.peak_rss_kb == peak_rss_kb
    &&& r.total_files == m.total_files
    &&& r.total_dirs == m.total_dirs
    &&& r.total_bytes == m.total_bytes
    &&& r.error_count == m.error_count
    &&& r.read_bytes == used(before.read_bytes, after.read_bytes)
    &&& r.write_bytes == used(before.write_bytes, after.write_bytes)
}

/// The result of a measurement that took the given time.
pub fn bench_result(before: &ResourceSnapshot, after: &ResourceSnapshot, wall_ms: u64, peak_rss_kb: u64, metrics: ScanMetrics) -> (r: BenchResult)
    ensures
        r.wall_ms == wall_ms,
        is_bench(*before, *after, peak_rss_kb, metrics, r),
{
    let d = before.delta(after);
    BenchResult {
        wall_ms,
        user_ms: d.user_us / 1000,
        sys_ms: d.sys_us / 1000,
        peak_rss_kb,
        total_files: metrics.total_files,
        total_dirs: metrics.total_dirs,
        total_bytes: metrics.total_bytes,
        error_count: metrics.error_count,
        read_bytes: d.read_bytes,
        write_bytes: d.write_bytes,
    }
}

/// A moment of the clock, `std::time::Instant`.
#[verifier::external_type_specification]
#[verifier::external_body]
pub struct ExInstant(std::time::Instant);

/// `std::time::Instant::now` reads the clock; nothing is claimed of the moment.
#[verifier::external_body]
fn read_clock() -> std::time::Instant {
    std::time::Instant::now()
}

/// `std::time::Instant::elapsed` gives the time since a moment, here in milliseconds;
/// nothing is claimed of it.
#[verifier::external_body]
fn elapsed_ms(since: &std::time::Instant) -> u64 {
    since.elapsed().as_millis() as u64
}

/// A measurement that has begun.
pub struct BenchHandle {
    pub start: std::time::Instant,
    pub snapshot: ResourceSnapshot,
}

impl BenchHandle {
    /// Begins a measurement.
    pub fn start(snapshot: ResourceSnapshot) -> (h: BenchHandle)
        ensures
            h.snapshot == snapshot,
    {
        BenchHandle { start: read_clock(), snapshot }
    }

    /// Ends a measurement. The elapsed time is what the clock says.
    pub fn finish(self, metrics: ScanMetrics, after: &ResourceSnapshot, peak_rss_kb: u64) -> (r: BenchResult)
        ensures
            is_bench(self.snapshot, *after, peak_rss_kb, metrics, r),
    {
        let wall_ms = elapsed_ms(&self.start);
        bench_result(&self.snapshot, after, wall_ms, peak_rss_kb, metrics)
    }
}

/// What the process has used, and its peak so far.
#[derive(Debug, Clone, Copy)]
pub struct Reading {
    pub snapshot: ResourceSnapshot,
    pub peak_rss_kb: u64,
}

/// Measures a scan. What the process has used is read before and after it.
pub fn measure<F: FnOnce() -> ScanMetrics, G: Fn() -> Reading>(f: F, capture: G) -> (r: BenchResult)
    requires
        f.requires(()),
        capture.requires(()),
    ensures
        exists|m: ScanMetrics, before: Reading, after: Reading|
            #![trigger f.ensures((), m), capture.ensures((), before), capture.ensures((), after)]
            f.ensures((), m) && capture.ensures((), before) && capture.ensures((), after) && is_bench(
                before.snapshot,
                after.snapshot,
                after.peak_rss_kb,
                m,
                r,
            ),
{
    let before = capture();
    let handle = BenchHandle::start(before.snapshot);
    let metrics = f();
    let after = capture();
    handle.finish(metrics, &after.snapshot, after.peak_rss_kb)
}

/// The lines of a text: without the line feeds, and without a carriage return in front
/// of one.
pub open spec fn lines_of(s: Seq<char>) -> Seq<Seq<char>> {
    let parts = split_text(s, '\n');
    let whole = if parts.len() > 0 && parts.last().len() == 0 {
        parts.drop_last()
    } else {
        parts
    };
    Seq::new(
        whole.len(),
        |i: int|
            if i < parts.len() - 1 && whole[i].len() > 0 && whole[i].last() == '\r' {
                whole[i].drop_last()
            } else {
                whole[i]
            },
    )
}

/// Splits a text into its lines.
pub fn lines(s: &str) -> (r: Vec<String>)
    ensures
        views(r@) == lines_of(s@),
{
    let parts = split(s, '\n');
    let ghost texts = views(parts@);
    let count = parts.len();
    let n = if count > 0 && parts[count - 1].as_str().is_empty() {
        count - 1
    } else {
        count
    };
    let ghost want = lines_of(s@);
    assert(texts == split_text(s@, '\n'));
    assert(want.len() == n);
    let mut r: Vec<String> = Vec::new();
    let mut i: usize = 0;
    while i < n
        invariant
            texts == views(parts@),
            texts == split_text(s@, '\n'),
            count == parts@.len(),
            n <= count,
            want == lines_of(s@),
            want.len() == n,
            i <= n,
            r@.len() == i,
            forall|k: int| 0 <= k < i ==> (#[trigger] r@[k])@ == want[k],
        decreases n - i,
    {
        let chars = chars_of(parts[i].as_str());
        let len = chars.len();
        assert(texts[i as int] == parts@[i as int]@);
        if i < count - 1 && len > 0 && chars[len - 1] == '\r' {
            let line = slice_text(&chars, 0, len - 1);
            assert(line@ =~= texts[i as int].drop_last());
            r.push(line);
        } else {
            r.push(parts[i].clone());
        }
        i = i + 1;
    }
    assert(views(r@) =~= want);
    r
}

/// The number behind a word at the beginning of a line, 0 where it is none.
pub open spec fn number_behind(line: Seq<char>, word: Seq<char>) -> u64 {
    match unsigned_value(trimmed(line.skip(word.len() as int)), u64::MAX as int) {
        Some(n) => n as u64,
        None => 0,
    }
}

/// The number of the last line that begins with a word and with no other one before it;
/// 0 where there is none.
pub open spec fn last_number(lines: Seq<Seq<char>>, word: Seq<char>) -> u64
    decreases lines.len(),
{
    if lines.len() == 0 {
        0
    } else if word.is_prefix_of(lines.last()) {
        number_behind(lines.last(), word)
    } else {
        last_number(lines.drop_last(), word)
    }
}

fn parse_behind(line: &str, word: &str) -> (n: u64)
    requires
        word@.is_prefix_of(line@),
    ensures
        n == number_behind(line@, word@),
{
    let chars = chars_of(line);
    let len = word.unicode_len();
    let rest = slice_text(&chars, len, chars.len());
    assert(rest@ =~= line@.skip(len as int));
    let t = trim(rest.as_str());
    match parse_u64(t.as_str()) {
        Some(n) => n,
        None => 0,
    }
}

/// The bytes that the process has read and written, as `/proc/self/io` says.
pub fn get_proc_io(content: &str) -> (r: (u64, u64))
    ensures
        r.0 == last_number(lines_of(content@), "read_bytes: "@),
        r.1 == last_number(lines_of(content@), "write_bytes: "@),
{
    let all = lines(content);
    let ghost texts = views(all@);
    let mut read: u64 = 0;
    let mut written: u64 = 0;
    let mut i: usize = 0;
    assert(texts.take(0) =~= Seq::<Seq<char>>::empty());
    proof {
        reveal_strlit("read_bytes: ");
        reveal_strlit("write_bytes: ");
    }
    while i < all.len()
        invariant
            texts == views(all@),
            i <= all@.len(),
            read == last_number(texts.take(i as int), "read_bytes: "@),
            written == last_number(texts.take(i as int), "write_bytes: "@),
            "read_bytes: "@.len() > 0,
            "read_bytes: "@[0] == 'r',
            "write_bytes: "@.len() > 0,
            "write_bytes: "@[0] == 'w',
        decreases all@.len() - i,
    {
        let line = all[i].as_str();
        proof {
            assert(texts.take(i + 1).drop_last() =~= texts.take(i as int));
            assert(texts.take(i + 1).last() == line@);
            if "read_bytes: "@.is_prefix_of(line@) && "write_bytes: "@.is_prefix_of(line@) {
                assert(line@.subrange(0, "read_bytes: "@.len() as int)[0] == line@[0]);
                assert(line@.subrange(0, "write_bytes: "@.len() as int)[0] == line@[0]);
            }
        }
        if starts_with(line, "read_bytes: ") {
            read = parse_behind(line, "read_bytes: ");
        } else if starts_with(line, "write_bytes: ") {
            written = parse_behind(line, "write_bytes: ");
        }
        i = i + 1;
    }
    assert(texts.take(i as int) =~= texts);
    (read, written)
}

/// What a line says of the peak, if it says so: a number and its unit.
pub open spec fn peak_in(line: Seq<char>) -> Option<u64> {
    let rest = trimmed(line.skip(6));
    if "VmHWM:"@.is_prefix_of(line) && rest.len() >= 3 && rest.skip(rest.len() - 3) == " kB"@ {
        match unsigned_value(trimmed(rest.take(rest.len() - 3)), u64::MAX as int) {
            Some(n) => Some(n as u64),
            None => Some(0),
        }
    } else {
        None
    }
}

/// The peak that the first line to say so gives; 0 where there is none.
pub open spec fn first_peak(lines: Seq<Seq<char>>) -> u64
    decreases lines.len(),
{
    if lines.len() == 0 {
        0
    } else {
        match peak_in(lines[0]) {
            Some(n) => n,
            None => first_peak(lines.skip(1)),
        }
    }
}

fn read_peak(line: &str) -> (r: Option<u64>)
    ensures
        r == peak_in(line@),
{
    proof {
        reveal_strlit("VmHWM:");
        reveal_strlit(" kB");
    }
    if !starts_with(line, "VmHWM:") {
        return None;
    }
    let chars = chars_of(line);
    let tail = slice_text(&chars, 6, chars.len());
    assert(tail@ =~= line@.skip(6));
    let rest_text = trim(tail.as_str());
    let rest = chars_of(rest_text.as_str());
    let n = rest.len();
    if n < 3 || rest[n - 3] != ' ' || rest[n - 2] != 'k' || rest[n - 1] != 'B' {
        proof {
            if n >= 3 {
                let end = rest@.skip(n - 3);
                assert(end[0] == rest@[n - 3] && end[1] == rest@[n - 2] && end[2] == rest@[n - 1]);
            }
        }
        return None;
    }
    assert(rest@.skip(n - 3) =~= " kB"@);
    let number = slice_text(&rest, 0, n - 3);
    assert(number@ =~= rest@.take(n - 3));
    let t = trim(number.as_str());
    match parse_u64(t.as_str()) {
        Some(n) => Some(n),
        None => Some(0),
    }
}

/// The peak of the resident set in kilobytes, as `/proc/self/status` says.
pub fn get_peak_rss_kb(content: &str) -> (r: u64)
    ensures
        r == first_peak(lines_of(content@)),
{
    let all = lines(content);
    let ghost texts = views(all@);
    let mut i: usize = 0;
    assert(texts.skip(0) =~= texts);
    while i < all.len()
        invariant
            texts == views(all@),
            texts == lines_of(content@),
            i <= all@.len(),
            first_peak(texts.skip(i as int)) == first_peak(texts),
        decreases all@.len() - i,
    {
        assert(texts.skip(i as int)[0] == all@[i as int]@);
        assert(texts.skip(i as int).skip(1) =~= texts.skip(i + 1));
        if let Some(n) = read_peak(all[i].as_str()) {
            return n;
        }
        i = i + 1;
    }
    0
}

} // verus!
