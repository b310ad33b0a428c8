//! The line table of a chunk, run-length encoded: for each source line, the
//! number of bytecode bytes written for it.

use vstd::prelude::*;
use vstd::string::*;
use crate::text::{append_decimal, decimal};

verus! {

#[derive(Debug, Clone, Copy)]
struct Line {
    line: u32,
    count: u32,
}

impl Line {
    fn new(line: u32) -> (l: Self)
        ensures
            l.line == line,
            l.count == 1,
    {
        Self { line, count: 1 }
    }

    fn add_count(&mut self)
        requires
            old(self).count < u32::MAX,
        ensures
            final(self).line == old(self).line,
            final(self).count == old(self).count + 1,
    {
        self.count += 1;
    }
}

/// The line table: a sequence of (line, count) entries.
#[derive(Debug, Clone)]
pub struct Lines {
    lines: Vec<Line>,
}

/// The first entry of `s` that is for `line`, if there is one.
pub open spec fn entry_of(s: Seq<(u32, u32)>, line: u32) -> Option<int> {
    entry_from(s, line, 0)
}

/// The first entry from position `i` on that is for `line`.
pub open spec fn entry_from(s: Seq<(u32, u32)>, line: u32, i: int) -> Option<int>
    decreases s.len() - i,
{
    if i < 0 || i >= s.len() {
        None
    } else if s[i].0 == line {
        Some(i)
    } else {
        entry_from(s, line, i + 1)
    }
}

/// The table after one more byte is recorded for `line`: the entry for the
/// line counts one more, or a new entry with count 1 is appended.
pub open spec fn with_line(s: Seq<(u32, u32)>, line: u32) -> Seq<(u32, u32)> {
    match entry_of(s, line) {
        Some(i) => s.update(i, (line, (s[i].1 + 1) as u32)),
        None => s.push((line, 1u32)),
    }
}

/// The table after `n` more bytes are recorded for `line`.
pub open spec fn with_line_times(s: Seq<(u32, u32)>, line: u32, n: nat) -> Seq<(u32, u32)>
    decreases n,
{
    if n == 0 {
        s
    } else {
        with_line_times(with_line(s, line), line, (n - 1) as nat)
    }
}

/// The entry for `line`, if any, can count `n` more bytes.
pub open spec fn can_count(s: Seq<(u32, u32)>, line: u32, n: nat) -> bool {
    match entry_of(s, line) {
        Some(i) => s[i].1 + n <= u32::MAX,
        None => n <= u32::MAX,
    }
}

/// The sum of the counts of the first `n` entries.
pub open spec fn count_upto(s: Seq<(u32, u32)>, n: int) -> int
    decreases n,
{
    if n <= 0 || n > s.len() {
        0
    } else {
        count_upto(s, n - 1) + s[n - 1].1
    }
}

/// The total count of the table.
pub open spec fn total_count(s: Seq<(u32, u32)>) -> int {
    count_upto(s, s.len() as int)
}

/// The entry whose run holds the byte at offset `idx`: the first whose
/// running count passes `idx`; none beyond the table.
pub open spec fn line_entry_for(s: Seq<(u32, u32)>, idx: u32) -> Option<int> {
    if exists|n: int| 1 <= n <= s.len() && #[trigger] count_upto(s, n) > idx {
        Some(
            (choose|n: int|
                1 <= n <= s.len() && #[trigger] count_upto(s, n) > idx && forall|m: int|
                    1 <= m < n ==> #[trigger] count_upto(s, m) <= idx) - 1,
        )
    } else {
        None
    }
}

/// The running count stays within `u32` up to the entry that answers `idx`.
pub open spec fn sums_fit(s: Seq<(u32, u32)>, idx: u32) -> bool {
    forall|k: int|
        0 <= k < s.len() && #[trigger] count_upto(s, k) <= idx ==> count_upto(s, k) + s[k].1
            <= u32::MAX
}

/// The message of a byte offset beyond the table.
pub open spec fn out_of_bounds_message(idx: u32) -> Seq<char> {
    "Line index "@ + decimal(idx as nat) + " out of bounds! Not found the bytecode"@
}

/// No two entries are for the same line, and every count is positive.
pub open spec fn lines_wf(s: Seq<(u32, u32)>) -> bool {
    &&& forall|i: int, j: int| 0 <= i < j < s.len() ==> s[i].0 != s[j].0
    &&& forall|i: int| 0 <= i < s.len() ==> s[i].1 >= 1
}

proof fn lemma_entry_of(s: Seq<(u32, u32)>, line: u32, i: int)
    requires
        0 <= i < s.len(),
        s[i].0 == line,
        forall|j: int| 0 <= j < i ==> s[j].0 != line,
    ensures
        entry_of(s, line) == Some(i),
{
    lemma_entry_from(s, line, 0, i);
}

proof fn lemma_entry_from(s: Seq<(u32, u32)>, line: u32, k: int, i: int)
    requires
        0 <= k <= i < s.len(),
        s[i].0 == line,
        forall|j: int| 0 <= j < i ==> s[j].0 != line,
    ensures
        entry_from(s, line, k) == Some(i),
    decreases i - k,
{
    if k < i {
        lemma_entry_from(s, line, k + 1, i);
    }
}

proof fn lemma_entry_found(s: Seq<(u32, u32)>, line: u32, k: int)
    requires
        0 <= k,
        entry_from(s, line, k) is Some,
    ensures
        ({
            let i = entry_from(s, line, k)->0;
            &&& k <= i < s.len()
            &&& s[i].0 == line
            &&& forall|j: int| k <= j < i ==> s[j].0 != line
        }),
    decreases s.len() - k,
{
    if k < s.len() && s[k].0 != line {
        lemma_entry_found(s, line, k + 1);
    }
}

proof fn lemma_entry_missing(s: Seq<(u32, u32)>, line: u32, k: int)
    requires
        0 <= k,
        entry_from(s, line, k) is None,
    ensures
        forall|j: int| k <= j < s.len() ==> s[j].0 != line,
    decreases s.len() - k,
{
    if k < s.len() {
        lemma_entry_missing(s, line, k + 1);
    }
}

proof fn lemma_no_entry(s: Seq<(u32, u32)>, line: u32, k: int)
    requires
        0 <= k <= s.len(),
        forall|j: int| k <= j < s.len() ==> s[j].0 != line,
    ensures
        entry_from(s, line, k) is None,
    decreases s.len() - k,
{
    if k < s.len() {
        lemma_no_entry(s, line, k + 1);
    }
}

proof fn lemma_line_entry_for(s: Seq<(u32, u32)>, idx: u32, n: int)
    requires
        1 <= n <= s.len(),
        count_upto(s, n) > idx,
        forall|m: int| 1 <= m < n ==> #[trigger] count_upto(s, m) <= idx,
    ensures
        line_entry_for(s, idx) == Some(n - 1),
{
    let c = choose|c: int|
        1 <= c <= s.len() && #[trigger] count_upto(s, c) > idx && forall|m: int|
            1 <= m < c ==> #[trigger] count_upto(s, m) <= idx;
    assert(1 <= c <= s.len() && count_upto(s, c) > idx && forall|m: int|
        1 <= m < c ==> #[trigger] count_upto(s, m) <= idx);
    if c < n {
        assert(count_upto(s, c) <= idx);
    } else if c > n {
        assert(count_upto(s, n) <= idx);
    }
}

impl View for Lines {
    type V = Seq<(u32, u32)>;

    closed spec fn view(&self) -> Seq<(u32, u32)> {
        self.lines@.map_values(|l: Line| (l.line, l.count))
    }
}

impl Lines {
    /// An empty table.
    pub fn new() -> (t: Self)
        ensures
            t@ == Seq::<(u32, u32)>::empty(),
    {
        let t = Self { lines: Vec::new() };
        assert(t@ =~= Seq::<(u32, u32)>::empty());
        t
    }

    /// Records one more byte for `line`.
    pub fn add_line(&mut self, line: u32)
        requires
            can_count(old(self)@, line, 1),
        ensures
            final(self)@ == with_line(old(self)@, line),
    {
        let ghost s = self@;
        let mut i: usize = 0;
        while i < self.lines.len()
            invariant
                0 <= i <= self.lines@.len(),
                self@ == s,
                s == old(self)@,
                can_count(s, line, 1),
                forall|j: int| 0 <= j < i ==> s[j].0 != line,
            decreases self.lines@.len() - i,
        {
            let mut entry = self.lines[i];
            assert(s[i as int] == (entry.line, entry.count));
            if entry.line < line {
                i += 1;
                continue ;
            } else if entry.line == line {
                proof {
                    lemma_entry_of(s, line, i as int);
                }
                entry.add_count();
                self.lines.set(i, entry);
                proof {
                    assert(self@ =~= s.update(i as int, (line, (s[i as int].1 + 1) as u32)));
                }
                return ;
            }
            i += 1;
        }
        proof {
            lemma_no_entry(s, line, 0);
        }
        self.lines.push(Line::new(line));
        proof {
            assert(self@ =~= s.push((line, 1u32)));
        }
    }

    /// The line of the bytecode byte at offset `idx`: the line of the entry
    /// whose run holds that byte; an error beyond the table.
    pub fn get_line(&self, idx: u32) -> (r: Result<u32, String>)
        requires
            sums_fit(self@, idx),
        ensures
            match line_entry_for(self@, idx) {
                Some(k) => r == Ok::<u32, String>(self@[k].0),
                None => r matches Err(msg) && msg@ == out_of_bounds_message(idx),
            },
    {
        let ghost s = self@;
        let mut cnt: u32 = 0;
        let mut k: usize = 0;
        while k < self.lines.len()
            invariant
                0 <= k <= self.lines@.len(),
                self@ == s,
                s.len() == self.lines@.len(),
                sums_fit(s, idx),
                cnt == count_upto(s, k as int),
                forall|m: int| 1 <= m <= k ==> #[trigger] count_upto(s, m) <= idx,
            decreases self.lines@.len() - k,
        {
            let entry = &self.lines[k];
            assert(s[k as int] == (entry.line, entry.count));
            assert(count_upto(s, k + 1) == count_upto(s, k as int) + s[k as int].1);
            cnt += entry.count;
            if cnt <= idx {
                k += 1;
                continue ;
            } else {
                proof {
                    lemma_line_entry_for(s, idx, k + 1);
                }
                return Ok(entry.line);
            }
        }
        proof {
            assert(!(exists|n: int| 1 <= n <= s.len() && #[trigger] count_upto(s, n) > idx));
        }
        let mut msg = String::from_str("Line index ");
        proof {
            reveal_strlit("Line index ");
        }
        append_decimal(&mut msg, idx as u64);
        msg.append(" out of bounds! Not found the bytecode");
        Err(msg)
    }
}

/// After one byte is recorded for `line`, its entry can count one fewer more.
pub proof fn lemma_can_count_step(s: Seq<(u32, u32)>, line: u32, n: nat)
    requires
        can_count(s, line, n + 1),
    ensures
        can_count(with_line(s, line), line, n),
{
    let t = with_line(s, line);
    match entry_of(s, line) {
        Some(i) => {
            lemma_entry_found(s, line, 0);
            lemma_entry_of(t, line, i);
        },
        None => {
            lemma_entry_missing(s, line, 0);
            assert forall|j: int| 0 <= j < s.len() implies t[j].0 != line by {
                assert(t[j] == s[j]);
            }
            lemma_entry_of(t, line, s.len() as int);
        },
    }
}

proof fn lemma_count_upto_monotone(s: Seq<(u32, u32)>, m: int, n: int)
    requires
        0 <= m <= n <= s.len(),
    ensures
        count_upto(s, m) <= count_upto(s, n),
    decreases n - m,
{
    if m < n {
        lemma_count_upto_monotone(s, m, n - 1);
    }
}

/// A table whose total count fits in `u32` answers every offset without
/// overflowing its running count.
pub proof fn lemma_small_table_sums_fit(s: Seq<(u32, u32)>, idx: u32)
    requires
        total_count(s) <= u32::MAX,
    ensures
        sums_fit(s, idx),
{
    assert forall|k: int| 0 <= k < s.len() && #[trigger] count_upto(s, k) <= idx implies count_upto(
        s,
        k,
    ) + s[k].1 <= u32::MAX by {
        lemma_count_upto_monotone(s, k + 1, s.len() as int);
    }
}

/// Recording a byte keeps the table well formed, and adds one to its total.
pub proof fn with_line_keeps_table(s: Seq<(u32, u32)>, line: u32)
    requires
        lines_wf(s),
        can_count(s, line, 1),
    ensures
        lines_wf(with_line(s, line)),
        total_count(with_line(s, line)) == total_count(s) + 1,
{
    let t = with_line(s, line);
    match entry_of(s, line) {
        Some(i) => {
            lemma_entry_found(s, line, 0);
            lemma_count_update(s, i, (line, (s[i].1 + 1) as u32), s.len() as int);
        },
        None => {
            lemma_entry_missing(s, line, 0);
            assert(count_upto(t, t.len() as int) == count_upto(t, s.len() as int) + 1);
            lemma_count_prefix(s, t, s.len() as int);
        },
    }
}

proof fn lemma_count_prefix(s: Seq<(u32, u32)>, t: Seq<(u32, u32)>, n: int)
    requires
        0 <= n <= s.len(),
        n <= t.len(),
        forall|i: int| 0 <= i < n ==> s[i] == t[i],
    ensures
        count_upto(s, n) == count_upto(t, n),
    decreases n,
{
    if n > 0 {
        lemma_count_prefix(s, t, n - 1);
    }
}

proof fn lemma_count_update(s: Seq<(u32, u32)>, i: int, e: (u32, u32), n: int)
    requires
        0 <= i < s.len(),
        0 <= n <= s.len(),
    ensures
        count_upto(s.update(i, e), n) == count_upto(s, n) + if i < n {
            e.1 - s[i].1
        } else {
            0
        },
    decreases n,
{
    if n > 0 {
        lemma_count_update(s, i, e, n - 1);
    }
}

} // verus!

verus! {

/// For every offset inside the run of bytes of entry `k`, `get_line` answers
/// that entry: each byte gets the line it was recorded for.
pub proof fn get_line_answers_run(s: Seq<(u32, u32)>, k: int, idx: u32)
    requires
        0 <= k < s.len(),
        count_upto(s, k) <= idx < count_upto(s, k + 1),
    ensures
        line_entry_for(s, idx) == Some(k),
{
    assert forall|m: int| 1 <= m < k + 1 implies #[trigger] count_upto(s, m) <= idx by {
        lemma_count_upto_monotone(s, m, k);
    }
    lemma_line_entry_for(s, idx, k + 1);
}

/// Offsets at or past the total count are beyond the table.
pub proof fn get_line_beyond_table(s: Seq<(u32, u32)>, idx: u32)
    requires
        total_count(s) <= idx,
    ensures
        line_entry_for(s, idx) is None,
{
    assert forall|n: int| 1 <= n <= s.len() implies #[trigger] count_upto(s, n) <= idx by {
        lemma_count_upto_monotone(s, n, s.len() as int);
    }
}

/// Recording `n` bytes for `line` keeps the table well formed and adds `n` to
/// its total.
pub proof fn lemma_with_line_times(s: Seq<(u32, u32)>, line: u32, n: nat)
    requires
        lines_wf(s),
        can_count(s, line, n),
    ensures
        lines_wf(with_line_times(s, line, n)),
        total_count(with_line_times(s, line, n)) == total_count(s) + n,
    decreases n,
{
    if n > 0 {
        lemma_can_count_step(s, line, (n - 1) as nat);
        with_line_keeps_table(s, line);
        lemma_with_line_times(with_line(s, line), line, (n - 1) as nat);
    }
}

/// A table whose total leaves room for `n` more bytes can count them on any
/// line.
pub proof fn lemma_can_count_from_total(s: Seq<(u32, u32)>, line: u32, n: nat)
    requires
        total_count(s) + n <= u32::MAX,
    ensures
        can_count(s, line, n),
{
    match entry_of(s, line) {
        Some(i) => {
            lemma_entry_found(s, line, 0);
            lemma_count_upto_monotone(s, i + 1, s.len() as int);
            lemma_count_upto_monotone(s, 0, i);
            assert(count_upto(s, i + 1) == count_upto(s, i) + s[i].1);
        },
        None => {
            lemma_count_upto_monotone(s, 0, s.len() as int);
        },
    }
}

/// The table after recording, in order, one byte for each line of `ls`.
pub open spec fn add_lines(t: Seq<(u32, u32)>, ls: Seq<u32>) -> Seq<(u32, u32)>
    decreases ls.len(),
{
    if ls.len() == 0 {
        t
    } else {
        add_lines(with_line(t, ls[0]), ls.drop_first())
    }
}

/// Recording `a` and then `b` is recording `a + b`.
pub proof fn lemma_add_lines_append(t: Seq<(u32, u32)>, a: Seq<u32>, b: Seq<u32>)
    ensures
        add_lines(add_lines(t, a), b) == add_lines(t, a + b),
    decreases a.len(),
{
    if a.len() > 0 {
        lemma_add_lines_append(with_line(t, a[0]), a.drop_first(), b);
        assert((a + b).drop_first() =~= a.drop_first() + b);
    } else {
        assert(a + b =~= b);
    }
}

/// Recording `n` bytes on one line is recording that line `n` times.
pub proof fn lemma_with_line_times_is_add_lines(t: Seq<(u32, u32)>, line: u32, n: nat)
    ensures
        with_line_times(t, line, n) == add_lines(t, Seq::new(n, |i: int| line)),
    decreases n,
{
    if n > 0 {
        lemma_with_line_times_is_add_lines(with_line(t, line), line, (n - 1) as nat);
        assert(Seq::new(n, |i: int| line).drop_first() =~= Seq::new((n - 1) as nat, |i: int| line));
    }
}

/// The run that holds offset `idx`, where one holds it: the first entry whose
/// running count passes `idx`, searching down from entry `n - 1`.
proof fn lemma_first_run(s: Seq<(u32, u32)>, idx: u32, n: int) -> (k: int)
    requires
        1 <= n <= s.len(),
        count_upto(s, n) > idx,
    ensures
        line_entry_for(s, idx) == Some(k),
        0 <= k < s.len(),
        count_upto(s, k) <= idx < count_upto(s, k + 1),
    decreases n,
{
    if n > 1 && count_upto(s, n - 1) > idx {
        lemma_first_run(s, idx, n - 1)
    } else {
        assert forall|m: int| 1 <= m < n implies #[trigger] count_upto(s, m) <= idx by {
            lemma_count_upto_monotone(s, m, n - 1);
        }
        lemma_line_entry_for(s, idx, n);
        n - 1
    }
}

/// The entry that answers `idx` holds `idx` in its run.
proof fn lemma_entry_run(s: Seq<(u32, u32)>, idx: u32) -> (k: int)
    requires
        line_entry_for(s, idx) is Some,
    ensures
        line_entry_for(s, idx) == Some(k),
        0 <= k < s.len(),
        count_upto(s, k) <= idx < count_upto(s, k + 1),
{
    let n = choose|n: int| 1 <= n <= s.len() && #[trigger] count_upto(s, n) > idx;
    lemma_first_run(s, idx, n)
}

/// Lines that never decrease, as the bytes of a chunk are written.
pub open spec fn ascending(ls: Seq<u32>) -> bool {
    forall|i: int, j: int| 0 <= i <= j < ls.len() ==> ls[i] <= ls[j]
}

/// The table `s` records the lines `ls`: one entry per run, in ascending
/// order of line, and each offset below the total answered by the entry of
/// the line recorded for it.
spec fn records(s: Seq<(u32, u32)>, ls: Seq<u32>) -> bool {
    &&& total_count(s) == ls.len()
    &&& forall|i: int, j: int| 0 <= i < j < s.len() ==> s[i].0 < s[j].0
    &&& ls.len() == 0 ==> s.len() == 0
    &&& ls.len() > 0 ==> s.len() > 0 && s[s.len() - 1].0 == ls[ls.len() - 1]
    &&& forall|j: int|
        0 <= j < ls.len() ==> (#[trigger] line_entry_for(s, j as u32) matches Some(k) && s[k].0
            == ls[j])
}

/// Recording a byte on the line of the last entry counts it there.
#[verifier::spinoff_prover]
proof fn lemma_records_same_line(s: Seq<(u32, u32)>, ls: Seq<u32>, l: u32)
    requires
        records(s, ls),
        ls.len() < u32::MAX,
        s.len() > 0,
        s[s.len() - 1].0 == l,
    ensures
        records(with_line(s, l), ls.push(l)),
{
    let n = s.len() as int;
    let t = with_line(s, l);
    let ls2 = ls.push(l);
    lemma_count_upto_monotone(s, 0, n - 1);
    assert(count_upto(s, n) == count_upto(s, n - 1) + s[n - 1].1);
    lemma_entry_of(s, l, n - 1);
    let e = (l, (s[n - 1].1 + 1) as u32);
    assert(t == s.update(n - 1, e));
    lemma_count_update(s, n - 1, e, n);
    assert forall|j: int| 0 <= j < ls2.len() implies (#[trigger] line_entry_for(
        t,
        j as u32,
    ) matches Some(k) && t[k].0 == ls2[j]) by {
        if j < ls.len() {
            assert(line_entry_for(s, j as u32) matches Some(k) && s[k].0 == ls[j]);
            let k = lemma_entry_run(s, j as u32);
            lemma_count_update(s, n - 1, e, k);
            lemma_count_update(s, n - 1, e, k + 1);
            get_line_answers_run(t, k, j as u32);
        } else {
            lemma_count_update(s, n - 1, e, n - 1);
            get_line_answers_run(t, n - 1, j as u32);
        }
    }
}

/// Recording a byte on a line past every entry opens an entry for it.
#[verifier::spinoff_prover]
proof fn lemma_records_new_line(s: Seq<(u32, u32)>, ls: Seq<u32>, l: u32)
    requires
        records(s, ls),
        ls.len() < u32::MAX,
        forall|i: int| 0 <= i < s.len() ==> s[i].0 < l,
    ensures
        records(with_line(s, l), ls.push(l)),
{
    let n = s.len() as int;
    let t = with_line(s, l);
    let ls2 = ls.push(l);
    lemma_no_entry(s, l, 0);
    assert(t == s.push((l, 1u32)));
    lemma_count_prefix(s, t, n);
    assert(count_upto(t, n + 1) == count_upto(t, n) + 1);
    assert forall|j: int| 0 <= j < ls2.len() implies (#[trigger] line_entry_for(
        t,
        j as u32,
    ) matches Some(k) && t[k].0 == ls2[j]) by {
        if j < ls.len() {
            assert(line_entry_for(s, j as u32) matches Some(k) && s[k].0 == ls[j]);
            let k = lemma_entry_run(s, j as u32);
            lemma_count_prefix(s, t, k);
            lemma_count_prefix(s, t, k + 1);
            get_line_answers_run(t, k, j as u32);
        } else {
            get_line_answers_run(t, n, j as u32);
        }
    }
}

proof fn lemma_records_step(s: Seq<(u32, u32)>, ls: Seq<u32>, l: u32)
    requires
        records(s, ls),
        ls.len() < u32::MAX,
        ls.len() > 0 ==> ls[ls.len() - 1] <= l,
    ensures
        records(with_line(s, l), ls.push(l)),
{
    let n = s.len() as int;
    if n > 0 && s[n - 1].0 == l {
        lemma_records_same_line(s, ls, l);
    } else {
        assert forall|i: int| 0 <= i < n implies s[i].0 < l by {
            if i < n - 1 {
                assert(s[i].0 < s[n - 1].0);
            }
        }
        lemma_records_new_line(s, ls, l);
    }
}

proof fn lemma_records(ls: Seq<u32>)
    requires
        ascending(ls),
        ls.len() <= u32::MAX,
    ensures
        records(add_lines(Seq::empty(), ls), ls),
    decreases ls.len(),
{
    if ls.len() == 0 {
        assert(records(Seq::<(u32, u32)>::empty(), ls));
    } else {
        let a = ls.drop_last();
        let l = ls[ls.len() - 1];
        lemma_records(a);
        lemma_add_lines_append(Seq::empty(), a, seq![l]);
        assert(a + seq![l] =~= ls);
        let t = add_lines(Seq::empty(), a);
        assert(seq![l].drop_first() =~= Seq::<u32>::empty());
        assert(add_lines(with_line(t, l), Seq::<u32>::empty()) == with_line(t, l));
        assert(add_lines(t, seq![l]) == with_line(t, l));
        lemma_records_step(t, a, l);
        assert(a.push(l) =~= ls);
    }
}

/// A table filled from empty with one line per bytecode byte, the lines never
/// decreasing, gives back for each offset the line recorded for that byte, and
/// an error for every offset at or past the number of bytes recorded.
pub proof fn get_line_reads_back(ls: Seq<u32>, idx: u32)
    requires
        ascending(ls),
        ls.len() <= u32::MAX,
    ensures
        total_count(add_lines(Seq::empty(), ls)) == ls.len(),
        sums_fit(add_lines(Seq::empty(), ls), idx),
        idx < ls.len() ==> (line_entry_for(add_lines(Seq::empty(), ls), idx) matches Some(k)
            && add_lines(Seq::empty(), ls)[k].0 == ls[idx as int]),
        ls.len() <= idx ==> line_entry_for(add_lines(Seq::empty(), ls), idx) is None,
{
    let s = add_lines(Seq::empty(), ls);
    lemma_records(ls);
    lemma_small_table_sums_fit(s, idx);
    if idx < ls.len() {
        assert(line_entry_for(s, (idx as int) as u32) matches Some(k) && s[k].0 == ls[idx as int]);
    } else {
        get_line_beyond_table(s, idx);
    }
}


} // verus!
