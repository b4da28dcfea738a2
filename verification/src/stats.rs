//! Database statistics.
use vstd::prelude::*;
use crate::text::{decimal_digits, push_decimal};

verus! {

/// The sum of a run of counts.
pub open spec fn sum_usize(s: Seq<usize>) -> int
    decreases s.len(),
{
    if s.len() == 0 { 0 } else { sum_usize(s.drop_last()) + s.last() }
}

/// The sum of a run of sizes.
pub open spec fn sum_u64(s: Seq<u64>) -> int
    decreases s.len(),
{
    if s.len() == 0 { 0 } else { sum_u64(s.drop_last()) + s.last() }
}

/// The largest of a run of sizes (zero for none).
pub open spec fn max_u64(s: Seq<u64>) -> u64
    decreases s.len(),
{
    if s.len() == 0 {
        0
    } else if s.last() > max_u64(s.drop_last()) {
        s.last()
    } else {
        max_u64(s.drop_last())
    }
}

/// How many of a run of counts are nonzero.
pub open spec fn count_nonzero(s: Seq<usize>) -> int
    decreases s.len(),
{
    if s.len() == 0 { 0 } else { count_nonzero(s.drop_last()) + if s.last() > 0 { 1int } else { 0 } }
}

/// A snapshot of the database's shape and operation counters.
#[derive(Debug, Clone)]
pub struct DbStats {
    pub memtable_entries: usize,
    pub memtable_size_bytes: usize,
    pub level_counts: Vec<usize>,
    pub level_sizes: Vec<u64>,
    pub reads: u64,
    pub writes: u64,
    pub flushes: u64,
    pub compactions: u64,
}

impl Default for DbStats {
    fn default() -> (r: DbStats)
        ensures
            r.memtable_entries == 0 && r.memtable_size_bytes == 0,
            r.level_counts@.len() == 0 && r.level_sizes@.len() == 0,
            r.reads == 0 && r.writes == 0 && r.flushes == 0 && r.compactions == 0,
    {
        DbStats {
            memtable_entries: 0,
            memtable_size_bytes: 0,
            level_counts: Vec::new(),
            level_sizes: Vec::new(),
            reads: 0,
            writes: 0,
            flushes: 0,
            compactions: 0,
        }
    }
}

impl DbStats {
    /// Shape only; the counters are zero.
    pub fn new(memtable_entries: usize, memtable_size_bytes: usize, level_counts: Vec<usize>, level_sizes: Vec<u64>) -> (r: DbStats)
        ensures
            r.memtable_entries == memtable_entries,
            r.memtable_size_bytes == memtable_size_bytes,
            r.level_counts@ == level_counts@,
            r.level_sizes@ == level_sizes@,
            r.reads == 0 && r.writes == 0 && r.flushes == 0 && r.compactions == 0,
    {
        DbStats { memtable_entries, memtable_size_bytes, level_counts, level_sizes, reads: 0, writes: 0, flushes: 0, compactions: 0 }
    }

    /// Shape and counters.
    pub fn with_metrics(
        memtable_entries: usize,
        memtable_size_bytes: usize,
        level_counts: Vec<usize>,
        level_sizes: Vec<u64>,
        reads: u64,
        writes: u64,
        flushes: u64,
        compactions: u64,
    ) -> (r: DbStats)
        ensures
            r.memtable_entries == memtable_entries,
            r.memtable_size_bytes == memtable_size_bytes,
            r.level_counts@ == level_counts@,
            r.level_sizes@ == level_sizes@,
            r.reads == reads && r.writes == writes && r.flushes == flushes && r.compactions == compactions,
    {
        DbStats { memtable_entries, memtable_size_bytes, level_counts, level_sizes, reads, writes, flushes, compactions }
    }

    /// The number of tables over all levels.
    pub fn total_sstables(&self) -> (r: usize)
        requires
            sum_usize(self.level_counts@) <= usize::MAX,
        ensures
            r == sum_usize(self.level_counts@),
    {
        let mut total: usize = 0;
        let mut i: usize = 0;
        while i < self.level_counts.len()
            invariant
                i <= self.level_counts@.len(),
                sum_usize(self.level_counts@) <= usize::MAX,
                total == sum_usize(self.level_counts@.take(i as int)),
            decreases self.level_counts@.len() - i,
        {
            proof {
                assert(self.level_counts@.take(i + 1).drop_last() =~= self.level_counts@.take(i as int));
                lemma_sum_usize_prefix(self.level_counts@, i + 1);
            }
            total = total + self.level_counts[i];
            i = i + 1;
        }
        assert(self.level_counts@.take(i as int) =~= self.level_counts@);
        total
    }

    /// The bytes of all tables over all levels.
    pub fn total_size_bytes(&self) -> (r: u64)
        requires
            sum_u64(self.level_sizes@) <= u64::MAX,
        ensures
            r == sum_u64(self.level_sizes@),
    {
        let mut total: u64 = 0;
        let mut i: usize = 0;
        while i < self.level_sizes.len()
            invariant
                i <= self.level_sizes@.len(),
                sum_u64(self.level_sizes@) <= u64::MAX,
                total == sum_u64(self.level_sizes@.take(i as int)),
            decreases self.level_sizes@.len() - i,
        {
            proof {
                assert(self.level_sizes@.take(i + 1).drop_last() =~= self.level_sizes@.take(i as int));
                lemma_sum_u64_prefix(self.level_sizes@, i + 1);
            }
            total = total + self.level_sizes[i];
            i = i + 1;
        }
        assert(self.level_sizes@.take(i as int) =~= self.level_sizes@);
        total
    }

    /// The number of levels that hold a table.
    pub fn active_level_count(&self) -> (r: usize)
        ensures
            r == count_nonzero(self.level_counts@),
    {
        let mut n: usize = 0;
        let mut i: usize = 0;
        while i < self.level_counts.len()
            invariant
                i <= self.level_counts@.len(),
                n == count_nonzero(self.level_counts@.take(i as int)),
                n <= i,
            decreases self.level_counts@.len() - i,
        {
            proof {
                assert(self.level_counts@.take(i + 1).drop_last() =~= self.level_counts@.take(i as int));
            }
            if self.level_counts[i] > 0 {
                n = n + 1;
            }
            i = i + 1;
        }
        assert(self.level_counts@.take(i as int) =~= self.level_counts@);
        n
    }

    /// The size of the largest level (zero when there are none).
    pub fn max_level_size(&self) -> (r: u64)
        ensures
            r == max_u64(self.level_sizes@),
    {
        let mut m: u64 = 0;
        let mut i: usize = 0;
        while i < self.level_sizes.len()
            invariant
                i <= self.level_sizes@.len(),
                m == max_u64(self.level_sizes@.take(i as int)),
            decreases self.level_sizes@.len() - i,
        {
            proof {
                assert(self.level_sizes@.take(i + 1).drop_last() =~= self.level_sizes@.take(i as int));
            }
            if self.level_sizes[i] > m {
                m = self.level_sizes[i];
            }
            i = i + 1;
        }
        assert(self.level_sizes@.take(i as int) =~= self.level_sizes@);
        m
    }

    /// Whether level `level` holds more than `threshold` bytes.
    pub fn is_compaction_needed(&self, level: usize, threshold: u64) -> (r: bool)
        ensures
            r == (level < self.level_sizes@.len() && self.level_sizes@[level as int] > threshold),
    {
        level < self.level_sizes.len() && self.level_sizes[level] > threshold
    }

    pub fn increment_reads(&mut self)
        requires
            old(self).reads < u64::MAX,
        ensures
            *final(self) == (DbStats { reads: (old(self).reads + 1) as u64, ..*old(self) }),
    {
        self.reads = self.reads + 1;
    }

    pub fn increment_writes(&mut self)
        requires
            old(self).writes < u64::MAX,
        ensures
            *final(self) == (DbStats { writes: (old(self).writes + 1) as u64, ..*old(self) }),
    {
        self.writes = self.writes + 1;
    }

    pub fn increment_flushes(&mut self)
        requires
            old(self).flushes < u64::MAX,
        ensures
            *final(self) == (DbStats { flushes: (old(self).flushes + 1) as u64, ..*old(self) }),
    {
        self.flushes = self.flushes + 1;
    }

    pub fn increment_compactions(&mut self)
        requires
            old(self).compactions < u64::MAX,
        ensures
            *final(self) == (DbStats { compactions: (old(self).compactions + 1) as u64, ..*old(self) }),
    {
        self.compactions = self.compactions + 1;
    }
}

/// A prefix of nonnegative counts sums to no more than the whole.
proof fn lemma_sum_usize_prefix(s: Seq<usize>, i: int)
    requires
        0 <= i <= s.len(),
    ensures
        sum_usize(s.take(i)) <= sum_usize(s),
    decreases s.len(),
{
    if i < s.len() {
        lemma_sum_usize_prefix(s.drop_last(), i);
        assert(s.drop_last().take(i) =~= s.take(i));
    } else {
        assert(s.take(i) =~= s);
    }
}

/// A prefix of sizes sums to no more than the whole.
proof fn lemma_sum_u64_prefix(s: Seq<u64>, i: int)
    requires
        0 <= i <= s.len(),
    ensures
        sum_u64(s.take(i)) <= sum_u64(s),
    decreases s.len(),
{
    if i < s.len() {
        lemma_sum_u64_prefix(s.drop_last(), i);
        assert(s.drop_last().take(i) =~= s.take(i));
    } else {
        assert(s.take(i) =~= s);
    }
}


/// The lines `  L<i>: <count> SSTables, <size> bytes` of the first `n` levels
/// that hold a table.
pub open spec fn level_lines(counts: Seq<usize>, sizes: Seq<u64>, n: nat) -> Seq<char>
    decreases n,
{
    if n == 0 {
        Seq::empty()
    } else {
        let i = (n - 1) as nat;
        level_lines(counts, sizes, i) + level_line(i, counts[i as int], sizes[i as int])
    }
}

/// The line of level `i`, if it holds a table.
pub open spec fn level_line(i: nat, count: usize, size: u64) -> Seq<char> {
    if count > 0 {
        "  L"@ + decimal_digits(i) + ": "@ + decimal_digits(count as nat) + " SSTables, "@
            + decimal_digits(size as nat) + " bytes\n"@
    } else {
        Seq::empty()
    }
}

fn push_level_line(s: &mut String, i: usize, count: usize, size: u64)
    ensures
        final(s)@ == old(s)@ + level_line(i as nat, count, size),
{
    if count > 0 {
        s.append("  L");
        push_decimal(s, i as u64);
        s.append(": ");
        push_decimal(s, count as u64);
        s.append(" SSTables, ");
        push_decimal(s, size);
        s.append(" bytes\n");
    }
    proof {
        assert(s@ =~= old(s)@ + level_line(i as nat, count, size));
    }
}

/// The number of levels that both lists describe.
pub open spec fn paired_len(counts: Seq<usize>, sizes: Seq<u64>) -> nat {
    if counts.len() < sizes.len() { counts.len() } else { sizes.len() }
}

impl DbStats {
    /// The text of the statistics.
    pub open spec fn spec_describe(&self) -> Seq<char> {
        "=== LSM5 Database Statistics ===\nMemTable: "@ + decimal_digits(self.memtable_entries as nat) + " entries, "@
            + decimal_digits(self.memtable_size_bytes as nat) + " bytes\n"@
            + level_lines(self.level_counts@, self.level_sizes@, paired_len(self.level_counts@, self.level_sizes@))
            + "\nOperations:\n  Reads:     "@ + decimal_digits(self.reads as nat)
            + "\n  Writes:    "@ + decimal_digits(self.writes as nat)
            + "\n  Flushes:   "@ + decimal_digits(self.flushes as nat)
            + "\n  Compactions: "@ + decimal_digits(self.compactions as nat) + "\n"@
    }

    /// The statistics as text: the memtable, each level that holds a table,
    /// and the operation counters.
    pub fn describe(&self) -> (r: String)
        ensures
            r@ == self.spec_describe(),
    {
        let mut s = "=== LSM5 Database Statistics ===\nMemTable: ".to_owned();
        push_decimal(&mut s, self.memtable_entries as u64);
        s.append(" entries, ");
        push_decimal(&mut s, self.memtable_size_bytes as u64);
        s.append(" bytes\n");
        let ghost head = s@;
        let n = if self.level_counts.len() < self.level_sizes.len() { self.level_counts.len() } else { self.level_sizes.len() };
        let mut i: usize = 0;
        while i < n
            invariant
                i <= n,
                n == paired_len(self.level_counts@, self.level_sizes@),
                s@ == head + level_lines(self.level_counts@, self.level_sizes@, i as nat),
            decreases n - i,
        {
            push_level_line(&mut s, i, self.level_counts[i], self.level_sizes[i]);
            proof {
                assert(s@ =~= head + level_lines(self.level_counts@, self.level_sizes@, (i + 1) as nat));
            }
            i = i + 1;
        }
        s.append("\nOperations:\n  Reads:     ");
        push_decimal(&mut s, self.reads);
        s.append("\n  Writes:    ");
        push_decimal(&mut s, self.writes);
        s.append("\n  Flushes:   ");
        push_decimal(&mut s, self.flushes);
        s.append("\n  Compactions: ");
        push_decimal(&mut s, self.compactions);
        s.append("\n");
        s
    }
}

} // verus!
