//! Finding the tables of a database among the files of its directory: the
//! file names (`L<level>-<sequence in hex>.sst`) and the tables' bytes.
use vstd::prelude::*;
use vstd::string::StringSliceAdditionalSpecFns;
use crate::entries::Entry;
use crate::memtable::copy_bytes;
use crate::sstable::{SsTableMeta, SsTableReader, spec_open, scan_all_spec};
use crate::table::Table;
use crate::compaction::MAX_LEVELS;

verus! {

/// The value of a digit in a radix (up to 16), if it is one.
pub open spec fn digit_value(c: u8, radix: nat) -> Option<nat> {
    let v: int = if 48 <= c <= 57 {
        c - 48
    } else if 97 <= c <= 102 {
        c - 87
    } else if 65 <= c <= 70 {
        c - 55
    } else {
        99
    };
    if v < radix { Some(v as nat) } else { None }
}

/// The number that digits spell in a radix (`None` when one is not a digit).
pub open spec fn digits_value(d: Seq<u8>, radix: nat) -> Option<nat>
    decreases d.len(),
{
    if d.len() == 0 {
        Some(0)
    } else {
        match (digits_value(d.drop_last(), radix), digit_value(d.last(), radix)) {
            (Some(v), Some(x)) => Some(v * radix + x),
            _ => None,
        }
    }
}

/// Parsing an unsigned number as Rust's `from_str_radix` does: an optional
/// `+`, then at least one digit; `None` when that fails or the value exceeds
/// `max`.
pub open spec fn spec_parse_number(s: Seq<u8>, radix: nat, max: nat) -> Option<nat> {
    let d = if s.len() > 0 && s[0] == 43 { s.drop_first() } else { s };
    if d.len() == 0 {
        None
    } else {
        match digits_value(d, radix) {
            Some(v) => if v <= max { Some(v) } else { None },
            None => None,
        }
    }
}

proof fn lemma_digits_grow(d: Seq<u8>, radix: nat, i: int)
    requires
        2 <= radix,
        0 <= i <= d.len(),
        digits_value(d, radix) is Some,
    ensures
        digits_value(d.take(i), radix) is Some,
        digits_value(d.take(i), radix)->Some_0 <= digits_value(d, radix)->Some_0,
    decreases d.len() - i,
{
    if i == d.len() {
        assert(d.take(i) =~= d);
    } else {
        lemma_digits_grow(d, radix, i + 1);
        assert(d.take(i + 1).drop_last() =~= d.take(i));
        let v = digits_value(d.take(i), radix);
        let w = digits_value(d.take(i + 1), radix);
        match v {
            Some(x) => {
                assert(w->Some_0 >= x * radix) by (nonlinear_arith)
                    requires
                        w->Some_0 == x * radix + digit_value(d[i], radix)->Some_0,
                        radix >= 2,
                ;
                assert(x * radix >= x) by (nonlinear_arith)
                    requires
                        radix >= 2,
                ;
            },
            None => {},
        }
    }
}

/// Parse an unsigned number in a radix (10 or 16) as `from_str_radix` does,
/// giving `None` for anything else and for values above `max`.
pub fn parse_number(s: &[u8], radix: u64, max: u64) -> (r: Option<u64>)
    requires
        radix == 10 || radix == 16,
    ensures
        match r {
            Some(v) => spec_parse_number(s@, radix as nat, max as nat) == Some(v as nat),
            None => spec_parse_number(s@, radix as nat, max as nat) is None,
        },
{
    let n = s.len();
    let start: usize = if n > 0 && s[0] == 43 { 1 } else { 0 };
    let ghost d = if s@.len() > 0 && s@[0] == 43 { s@.drop_first() } else { s@ };
    proof {
        assert(d =~= s@.subrange(start as int, n as int));
    }
    if start >= n {
        return None;
    }
    let mut v: u64 = 0;
    let mut i: usize = start;
    proof {
        assert(d.take(0) =~= Seq::<u8>::empty());
    }
    while i < n
        invariant
            start <= i <= n,
            n == s@.len(),
            radix == 10 || radix == 16,
            d == s@.subrange(start as int, n as int),
            d == (if s@.len() > 0 && s@[0] == 43 { s@.drop_first() } else { s@ }),
            d.len() > 0,
            digits_value(d.take(i - start), radix as nat) == Some(v as nat),
            v <= max,
        decreases n - i,
    {
        let c = s[i];
        let x: u64 = if 48 <= c && c <= 57 {
            (c - 48) as u64
        } else if 97 <= c && c <= 102 {
            (c - 87) as u64
        } else if 65 <= c && c <= 70 {
            (c - 55) as u64
        } else {
            99
        };
        proof {
            assert(d.take(i + 1 - start).drop_last() =~= d.take(i - start));
            assert(d.take(i + 1 - start).last() == c);
        }
        if x >= radix {
            proof {
                assert(digits_value(d.take(i + 1 - start), radix as nat) is None);
                if digits_value(d, radix as nat) is Some {
                    lemma_digits_grow(d, radix as nat, i + 1 - start);
                }
            }
            return None;
        }
        let next: Option<u64> = match v.checked_mul(radix) {
            Some(p) => p.checked_add(x),
            None => None,
        };
        match next {
            Some(w) => {
                if w > max {
                    proof {
                        if digits_value(d, radix as nat) is Some {
                            lemma_digits_grow(d, radix as nat, i + 1 - start);
                        }
                    }
                    return None;
                }
                v = w;
            },
            None => {
                proof {
                    assert(v * radix + x > u64::MAX);
                    if digits_value(d, radix as nat) is Some {
                        lemma_digits_grow(d, radix as nat, i + 1 - start);
                    }
                }
                return None;
            },
        }
        i = i + 1;
    }
    proof {
        assert(d.take(n - start) =~= d);
    }
    Some(v)
}

/// The bytes `.sst`.
pub open spec fn sst_suffix() -> Seq<u8> {
    seq![46u8, 115u8, 115u8, 116u8]
}

/// The position of the first `-`, if any.
pub open spec fn first_dash(s: Seq<u8>) -> Option<int>
    decreases s.len(),
{
    if s.len() == 0 {
        None
    } else {
        match first_dash(s.drop_last()) {
            Some(i) => Some(i),
            None => if s.last() == 45 { Some(s.len() - 1) } else { None },
        }
    }
}

/// The level and sequence number a table file's name gives: the name is
/// `<stem>.sst` with a nonempty stem, the stem splits at its first `-` into
/// `L<level>` and `<sequence>`; a level or sequence that does not parse (as a
/// decimal `usize`, a hexadecimal `u64`) counts as 0.  `None` for a name
/// that is not of that form.
pub open spec fn spec_table_name(b: Seq<u8>) -> Option<(nat, u64)> {
    if b.len() <= 4 || b.subrange(b.len() - 4, b.len() as int) != sst_suffix() {
        None
    } else {
        let stem = b.subrange(0, b.len() - 4);
        match first_dash(stem) {
            None => None,
            Some(i) => {
                let p0 = stem.subrange(0, i);
                let p1 = stem.subrange(i + 1, stem.len() as int);
                if p0.len() == 0 || p0[0] != 76 {
                    None
                } else {
                    let level = match spec_parse_number(p0.drop_first(), 10, usize::MAX as nat) {
                        Some(v) => v,
                        None => 0,
                    };
                    let seq = match spec_parse_number(p1, 16, u64::MAX as nat) {
                        Some(v) => v as u64,
                        None => 0,
                    };
                    Some((level, seq))
                }
            },
        }
    }
}

pub proof fn lemma_first_dash(s: Seq<u8>, j: int)
    requires
        0 <= j <= s.len(),
        forall|t: int| 0 <= t < j ==> s[t] != 45,
    ensures
        first_dash(s.take(j)) is None,
    decreases j,
{
    if j > 0 {
        assert(s.take(j).drop_last() =~= s.take(j - 1));
        lemma_first_dash(s, j - 1);
    }
}

pub proof fn lemma_first_dash_found(s: Seq<u8>, j: int, n: int)
    requires
        0 <= j < n <= s.len(),
        forall|t: int| 0 <= t < j ==> s[t] != 45,
        s[j] == 45,
    ensures
        first_dash(s.take(n)) == Some(j),
    decreases n,
{
    if n == j + 1 {
        lemma_first_dash(s, j);
        assert(s.take(n).drop_last() =~= s.take(j));
    } else {
        lemma_first_dash_found(s, j, n - 1);
        assert(s.take(n).drop_last() =~= s.take(n - 1));
    }
}

/// The level and sequence number of a table file's name (see
/// `spec_table_name`).
pub fn parse_table_name(name: &str) -> (r: Option<(usize, u64)>)
    ensures
        match r {
            Some((l, q)) => spec_table_name(name.spec_bytes()) == Some((l as nat, q)),
            None => spec_table_name(name.spec_bytes()) is None,
        },
{
    let b = name.as_bytes();
    let n = b.len();
    if n <= 4 || b[n - 4] != 46 || b[n - 3] != 115 || b[n - 2] != 115 || b[n - 1] != 116 {
        proof {
            if n > 4 {
                assert(b@.subrange(n - 4, n as int)[0] == b@[n - 4]);
                assert(b@.subrange(n - 4, n as int)[1] == b@[n - 3]);
                assert(b@.subrange(n - 4, n as int)[2] == b@[n - 2]);
                assert(b@.subrange(n - 4, n as int)[3] == b@[n - 1]);
            }
        }
        return None;
    }
    proof {
        assert(b@.subrange(n - 4, n as int) =~= sst_suffix());
    }
    let stem_len = n - 4;
    let ghost stem = b@.subrange(0, stem_len as int);
    let mut j: usize = 0;
    while j < stem_len && b[j] != 45
        invariant
            j <= stem_len,
            stem_len < n,
            n == b@.len(),
            stem == b@.subrange(0, stem_len as int),
            forall|t: int| 0 <= t < j ==> stem[t] != 45,
        decreases stem_len - j,
    {
        j = j + 1;
    }
    if j == stem_len {
        proof {
            lemma_first_dash(stem, j as int);
            assert(stem.take(j as int) =~= stem);
        }
        return None;
    }
    proof {
        lemma_first_dash_found(stem, j as int, stem_len as int);
        assert(stem.take(stem_len as int) =~= stem);
    }
    if j == 0 || b[0] != 76 {
        return None;
    }
    let level_digits = crate::wal::copy_range(b, 1, j - 1);
    let seq_digits = crate::wal::copy_range(b, j + 1, stem_len - j - 1);
    proof {
        assert(level_digits@ =~= stem.subrange(0, j as int).drop_first());
        assert(seq_digits@ =~= stem.subrange(j + 1, stem.len() as int));
    }
    let level = match parse_number(level_digits.as_slice(), 10, usize::MAX as u64) {
        Some(v) => v as usize,
        None => 0,
    };
    let seq = match parse_number(seq_digits.as_slice(), 16, u64::MAX) {
        Some(v) => v,
        None => 0,
    };
    Some((level, seq))
}

} // verus!

verus! {

/// The level and sequence number a file loads with: its name is a table
/// file's name with a level below `MAX_LEVELS`, and its bytes open to a
/// table.
pub open spec fn file_loads(f: (Seq<char>, Seq<u8>)) -> Option<(nat, u64)> {
    match spec_table_name(vstd::utf8::encode_utf8(f.0)) {
        Some((l, q)) => if l < MAX_LEVELS && spec_open(f.1) is Ok {
            Some((l, q))
        } else {
            None
        },
        None => None,
    }
}

/// The files that load at `level`, in order.
pub open spec fn picked(fs: Seq<(Seq<char>, Seq<u8>)>, level: nat) -> Seq<(Seq<char>, Seq<u8>)>
    decreases fs.len(),
{
    if fs.len() == 0 {
        Seq::empty()
    } else {
        let r = picked(fs.drop_last(), level);
        match file_loads(fs.last()) {
            Some(x) => if x.0 == level { r.push(fs.last()) } else { r },
            None => r,
        }
    }
}

/// The run of entries that a table's bytes hold.
pub open spec fn image_run(img: Seq<u8>) -> Seq<Entry> {
    match spec_open(img) {
        Ok(m) => scan_all_spec(m.data, 0),
        Err(_) => Seq::empty(),
    }
}

/// A table's metadata is that of the file it was loaded from, and its run
/// is what the file's bytes hold.
pub open spec fn loaded_from(t: Table, f: (Seq<char>, Seq<u8>)) -> bool {
    &&& file_loads(f) is Some
    &&& t.run@ == image_run(f.1)
    &&& t.meta.path@ == f.0
    &&& t.image@ == f.1
    &&& t.meta.level == file_loads(f)->Some_0.0
    &&& t.meta.sequence == file_loads(f)->Some_0.1
    &&& ({
        let m = spec_open(f.1)->Ok_0;
        &&& t.meta.min_key@ == (if m.index.len() > 0 { m.index[0].0 } else { Seq::empty() })
        &&& t.meta.max_key@ == (if m.index.len() > 0 { m.index.last().0 } else { Seq::empty() })
        &&& t.meta.entry_count == m.index.len()
        &&& t.meta.file_size == f.1.len()
    })
}

/// The name and bytes of each table.
pub open spec fn table_files(ts: Seq<Table>) -> Seq<(Seq<char>, Seq<u8>)> {
    ts.map_values(|t: Table| (t.meta.path@, t.image@))
}

/// The names and bytes of files.
pub open spec fn files_view(fs: Seq<(String, Vec<u8>)>) -> Seq<(Seq<char>, Seq<u8>)> {
    fs.map_values(|f: (String, Vec<u8>)| (f.0@, f.1@))
}

/// What loading gives: `MAX_LEVELS` levels, each holding the tables of the
/// files that load at it, in increasing sequence order.
pub open spec fn loaded_levels(lv: Seq<Seq<Table>>, fs: Seq<(Seq<char>, Seq<u8>)>) -> bool {
    &&& lv.len() == MAX_LEVELS
    &&& forall|i: int| 0 <= i < lv.len() ==> #[trigger] table_files(lv[i]).to_multiset() == picked(fs, i as nat).to_multiset()
    &&& forall|i: int, a: int, b: int| 0 <= i < lv.len() && 0 <= a <= b < lv[i].len()
        ==> (#[trigger] lv[i][a]).meta.sequence <= (#[trigger] lv[i][b]).meta.sequence
    &&& forall|i: int, j: int| 0 <= i < lv.len() && 0 <= j < lv[i].len()
        ==> loaded_from(#[trigger] lv[i][j], (lv[i][j].meta.path@, lv[i][j].image@))
}

/// The tables among the files of a database's directory, by level, each
/// level in increasing sequence order (files that are no table of a level
/// below `MAX_LEVELS`, or whose bytes do not open, are passed over).
pub fn load_existing_sstables(files: Vec<(String, Vec<u8>)>) -> (r: Vec<Vec<Table>>)
    ensures
        loaded_levels(r@.map_values(|v: Vec<Table>| v@), files_view(files@)),
{
    let ghost fv = files_view(files@);
    let mut levels: Vec<Vec<Table>> = Vec::new();
    let mut i: usize = 0;
    while i < MAX_LEVELS
        invariant
            i <= MAX_LEVELS,
            levels@.len() == i,
            forall|t: int| 0 <= t < i ==> (#[trigger] levels@[t])@.len() == 0,
        decreases MAX_LEVELS - i,
    {
        levels.push(Vec::new());
        i = i + 1;
    }
    let mut rest = files;
    let mut k: usize = 0;
    let n = rest.len();
    proof {
        assert forall|l: int| 0 <= l < MAX_LEVELS implies
            #[trigger] table_files(levels@[l]@).to_multiset() == picked(fv.take(0), l as nat).to_multiset() by {
            assert(fv.take(0) =~= Seq::<(Seq<char>, Seq<u8>)>::empty());
            assert(table_files(levels@[l]@) =~= Seq::<(Seq<char>, Seq<u8>)>::empty());
        }
    }
    while k < n
        invariant
            k <= n,
            n == fv.len(),
            rest@.len() == n - k,
            forall|t: int| 0 <= t < rest@.len() ==> ((#[trigger] rest@[t]).0@, rest@[t].1@) == fv[k + t],
            levels@.len() == MAX_LEVELS,
            forall|l: int| 0 <= l < MAX_LEVELS ==>
                #[trigger] table_files(levels@[l]@).to_multiset() == picked(fv.take(k as int), l as nat).to_multiset(),
            forall|l: int, a: int, b: int| 0 <= l < MAX_LEVELS && 0 <= a <= b < levels@[l]@.len()
                ==> (#[trigger] levels@[l]@[a]).meta.sequence <= (#[trigger] levels@[l]@[b]).meta.sequence,
            forall|l: int, j: int| 0 <= l < MAX_LEVELS && 0 <= j < levels@[l]@.len()
                ==> loaded_from(#[trigger] levels@[l]@[j], (levels@[l]@[j].meta.path@, levels@[l]@[j].image@)),
        decreases n - k,
    {
        proof {
            assert((rest@[0].0@, rest@[0].1@) == fv[k + 0]);
        }
        let ghost rest0 = rest@;
        let (name, bytes) = rest.remove(0);
        let ghost f = (name@, bytes@);
        proof {
            assert(f == fv[k as int]);
            assert(fv.take(k + 1).drop_last() =~= fv.take(k as int));
            assert(fv.take(k + 1).last() == f);
        }
        let parsed = parse_table_name(name.as_str());
        let ghost before = levels@;
        match parsed {
            Some((level, seq)) => {
                if level < MAX_LEVELS {
                    match SsTableReader::open(bytes.as_slice()) {
                        Ok(reader) => {
                            let min_key = match reader.min_key() {
                                Some(k) => copy_bytes(k),
                                None => Vec::new(),
                            };
                            let max_key = match reader.max_key() {
                                Some(k) => copy_bytes(k),
                                None => Vec::new(),
                            };
                            let entry_count = reader.entry_count();
                            let file_size = bytes.len() as u64;
                            let ghost held = image_run(bytes@);
                            let t = Table {
                                meta: SsTableMeta {
                                    path: name,
                                    level,
                                    min_key,
                                    max_key,
                                    entry_count,
                                    file_size,
                                    sequence: seq,
                                },
                                image: bytes,
                                run: Ghost(held),
                            };
                            proof {
                                assert(file_loads(f) == Some((level as nat, seq)));
                                assert(loaded_from(t, (t.meta.path@, t.image@)));
                            }
                            let ghost tf = (t.meta.path@, t.image@);
                            insert_by_seq(&mut levels, level, t);
                            proof {
                                assert(tf == f);
                                lemma_picked_step(fv, k as int, level as nat);
                                assert forall|l: int| 0 <= l < MAX_LEVELS implies
                                    #[trigger] table_files(levels@[l]@).to_multiset() == picked(fv.take(k + 1), l as nat).to_multiset() by {
                                    if l == level as int {
                                        vstd::seq_lib::to_multiset_build(picked(fv.take(k as int), l as nat), f);
                                        assert(picked(fv.take(k + 1), l as nat) == picked(fv.take(k as int), l as nat).push(f));
                                    } else {
                                        assert(levels@[l] == before[l]);
                                        assert(picked(fv.take(k + 1), l as nat) == picked(fv.take(k as int), l as nat));
                                    }
                                }
                            }
                        },
                        Err(_) => {
                            proof {
                                lemma_picked_none(fv, k as int);
                                assert forall|l: int| 0 <= l < MAX_LEVELS implies
                                    #[trigger] table_files(levels@[l]@).to_multiset() == picked(fv.take(k + 1), l as nat).to_multiset() by {
                                    assert(picked(fv.take(k + 1), l as nat) == picked(fv.take(k as int), l as nat));
                                }
                            }
                        },
                    }
                } else {
                    proof {
                        lemma_picked_none(fv, k as int);
                        assert forall|l: int| 0 <= l < MAX_LEVELS implies
                            #[trigger] table_files(levels@[l]@).to_multiset() == picked(fv.take(k + 1), l as nat).to_multiset() by {
                            assert(picked(fv.take(k + 1), l as nat) == picked(fv.take(k as int), l as nat));
                        }
                    }
                }
            },
            None => {
                proof {
                    lemma_picked_none(fv, k as int);
                    assert forall|l: int| 0 <= l < MAX_LEVELS implies
                        #[trigger] table_files(levels@[l]@).to_multiset() == picked(fv.take(k + 1), l as nat).to_multiset() by {
                        assert(picked(fv.take(k + 1), l as nat) == picked(fv.take(k as int), l as nat));
                    }
                }
            },
        }
        proof {
            assert forall|t: int| 0 <= t < rest@.len() implies ((#[trigger] rest@[t]).0@, rest@[t].1@) == fv[k + 1 + t] by {
                assert(rest@[t] == rest0[t + 1]);
            }
        }
        k = k + 1;
    }
    proof {
        assert(fv.take(n as int) =~= fv);
        let lv = levels@.map_values(|v: Vec<Table>| v@);
        assert forall|l: int| 0 <= l < lv.len() implies #[trigger] lv[l] == levels@[l]@ by {}
    }
    levels
}

/// One more file that loads at `level` adds it there and nowhere else.
proof fn lemma_picked_step(fv: Seq<(Seq<char>, Seq<u8>)>, k: int, level: nat)
    requires
        0 <= k < fv.len(),
        file_loads(fv[k]) matches Some(x) && x.0 == level,
    ensures
        forall|l: nat| #[trigger] picked(fv.take(k + 1), l) == (if l == level { picked(fv.take(k), l).push(fv[k]) } else { picked(fv.take(k), l) }),
{
    assert(fv.take(k + 1).drop_last() =~= fv.take(k));
    assert(fv.take(k + 1).last() == fv[k]);
}

/// A file that does not load adds nothing.
proof fn lemma_picked_none(fv: Seq<(Seq<char>, Seq<u8>)>, k: int)
    requires
        0 <= k < fv.len(),
        file_loads(fv[k]) is None || file_loads(fv[k])->Some_0.0 >= MAX_LEVELS,
    ensures
        forall|l: nat| l < MAX_LEVELS ==> #[trigger] picked(fv.take(k + 1), l) == picked(fv.take(k), l),
{
    assert(fv.take(k + 1).drop_last() =~= fv.take(k));
    assert(fv.take(k + 1).last() == fv[k]);
}

/// Put a table into its level after every table with a number no higher.
fn insert_by_seq(levels: &mut Vec<Vec<Table>>, level: usize, t: Table)
    requires
        level < old(levels)@.len(),
        forall|a: int, b: int| 0 <= a <= b < old(levels)@[level as int]@.len()
            ==> (#[trigger] old(levels)@[level as int]@[a]).meta.sequence <= (#[trigger] old(levels)@[level as int]@[b]).meta.sequence,
    ensures
        final(levels)@.len() == old(levels)@.len(),
        forall|l: int| 0 <= l < old(levels)@.len() && l != level ==> #[trigger] final(levels)@[l] == old(levels)@[l],
        table_files(final(levels)@[level as int]@).to_multiset() == table_files(old(levels)@[level as int]@).to_multiset().insert((t.meta.path@, t.image@)),
        forall|a: int, b: int| 0 <= a <= b < final(levels)@[level as int]@.len()
            ==> (#[trigger] final(levels)@[level as int]@[a]).meta.sequence <= (#[trigger] final(levels)@[level as int]@[b]).meta.sequence,
        forall|j: int| 0 <= j < final(levels)@[level as int]@.len() ==> (#[trigger] final(levels)@[level as int]@[j] == t
            || exists|i: int| 0 <= i < old(levels)@[level as int]@.len() && final(levels)@[level as int]@[j] == #[trigger] old(levels)@[level as int]@[i]),
{
    let mut v = levels.remove(level);
    let ghost v0 = v@;
    let s = t.meta.sequence;
    let mut p: usize = 0;
    while p < v.len() && v[p].meta.sequence <= s
        invariant
            p <= v@.len(),
            v@ == v0,
            forall|a: int| 0 <= a < p ==> (#[trigger] v0[a]).meta.sequence <= s,
        decreases v@.len() - p,
    {
        p = p + 1;
    }
    let ghost tf = (t.meta.path@, t.image@);
    v.insert(p, t);
    proof {
        assert(table_files(v@) =~= table_files(v0).insert(p as int, tf));
        vstd::seq_lib::to_multiset_insert(table_files(v0), p as int, tf);
        assert forall|a: int, b: int| 0 <= a <= b < v@.len() implies (#[trigger] v@[a]).meta.sequence <= (#[trigger] v@[b]).meta.sequence by {
            let a0 = if a < p { a } else if a == p { -1 } else { a - 1 };
            let b0 = if b < p { b } else if b == p { -1 } else { b - 1 };
            if a != p as int && b != p as int {
                assert(v@[a] == v0[a0] && v@[b] == v0[b0]);
            } else if a == p as int && b != p as int {
                assert(v@[b] == v0[b0]);
                assert(b0 >= p);
            } else if a != p as int && b == p as int {
                assert(v@[a] == v0[a0]);
            }
        }
        assert forall|j: int| 0 <= j < v@.len() implies (#[trigger] v@[j] == t
            || exists|i: int| 0 <= i < v0.len() && v@[j] == #[trigger] v0[i]) by {
            if j < p {
                assert(v@[j] == v0[j]);
            } else if j > p {
                assert(v@[j] == v0[j - 1]);
            }
        }
    }
    levels.insert(level, v);
    proof {
        assert forall|l: int| 0 <= l < old(levels)@.len() && l != level implies #[trigger] levels@[l] == old(levels)@[l] by {
        }
    }
}

} // verus!

verus! {

/// Without files, every level is empty.
pub proof fn lemma_no_files(lv: Seq<Seq<Table>>, fs: Seq<(Seq<char>, Seq<u8>)>)
    requires
        loaded_levels(lv, fs),
        fs.len() == 0,
    ensures
        forall|i: int| 0 <= i < lv.len() ==> #[trigger] lv[i].len() == 0,
{
    assert forall|i: int| 0 <= i < lv.len() implies #[trigger] lv[i].len() == 0 by {
        assert(picked(fs, i as nat) =~= Seq::<(Seq<char>, Seq<u8>)>::empty());
        vstd::seq_lib::to_multiset_len(table_files(lv[i]));
        vstd::seq_lib::to_multiset_len(picked(fs, i as nat));
        assert(table_files(lv[i]).len() == lv[i].len());
    }
}

} // verus!
