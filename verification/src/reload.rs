//! Reloading a database's tables from the files it wrote: the files of sound
//! levels, listed in any order and loaded back, give the same levels again.
use vstd::prelude::*;
use crate::table::{Table, table_ok, runs_of};
use crate::levels::{levels_sound, level_runs};
use crate::recovery::{file_loads, loaded_levels, loaded_from, table_files, picked, image_run};
use crate::compaction::{MAX_LEVELS, lemma_stored_run};
use crate::sstable::{spec_open, index_of};

verus! {

/// A file: its name and its bytes.
pub type File = (Seq<char>, Seq<u8>);

/// The files of the tables of all levels, level by level.
pub open spec fn level_files(lv: Seq<Seq<Table>>) -> Seq<File>
    decreases lv.len(),
{
    if lv.len() == 0 {
        Seq::empty()
    } else {
        level_files(lv.drop_last()) + table_files(lv.last())
    }
}

/// Every table records its level and is named for its level and sequence
/// number.
pub open spec fn named(lv: Seq<Seq<Table>>) -> bool {
    forall|i: int, j: int| 0 <= i < lv.len() && 0 <= j < lv[i].len() ==> {
        &&& (#[trigger] lv[i][j]).meta.level == i
        &&& crate::recovery::spec_table_name(vstd::utf8::encode_utf8(lv[i][j].meta.path@))
            == Some((i as nat, lv[i][j].meta.sequence))
    }
}

/// Two tables agree on their file and on everything reads and the order of
/// levels look at.
pub open spec fn same_table(a: Table, b: Table) -> bool {
    &&& a.meta.path@ == b.meta.path@
    &&& a.image@ == b.image@
    &&& a.run@ == b.run@
    &&& a.meta.level == b.meta.level
    &&& a.meta.sequence == b.meta.sequence
    &&& a.meta.min_key@ == b.meta.min_key@
    &&& a.meta.max_key@ == b.meta.max_key@
    &&& a.meta.entry_count == b.meta.entry_count
    &&& a.meta.file_size == b.meta.file_size
}

/// A listing holds each file that loads as often as the files of the
/// levels do (other files may be in it too).
pub open spec fn lists_tables(fs: Seq<File>, lv: Seq<Seq<Table>>) -> bool {
    forall|x: File| file_loads(x) is Some ==> #[trigger] fs.to_multiset().count(x) == level_files(lv).to_multiset().count(x)
}

/// The level a file loads at.
pub open spec fn loads_at(f: File, l: nat) -> bool {
    file_loads(f) matches Some(x) && x.0 == l
}

/// The sequence number a file loads with.
pub open spec fn file_seq(f: File) -> u64 {
    file_loads(f)->Some_0.1
}

/// The table of a sound, named level loads from its own file, at its level,
/// with its sequence number.
pub proof fn lemma_table_loads(lv: Seq<Seq<Table>>, top: u64, i: int, j: int)
    requires
        levels_sound(lv, top),
        named(lv),
        0 <= i < lv.len(),
        0 <= j < lv[i].len(),
    ensures
        file_loads((lv[i][j].meta.path@, lv[i][j].image@)) == Some((i as nat, lv[i][j].meta.sequence)),
        loaded_from(lv[i][j], (lv[i][j].meta.path@, lv[i][j].image@)),
{
    let t = lv[i][j];
    assert(table_ok(t));
    assert(t.meta.level == i);
    lemma_stored_run(t);
    let s = t.run@;
    let m = spec_open(t.image@)->Ok_0;
    assert(m.index == index_of(s));
    assert(m.index.len() == s.len());
    assert(m.index[0].0 == s[0].0);
    assert(m.index.last().0 == s.last().0);
}

/// How often `x` occurs among the files that load at `l` is how often it
/// occurs in the listing, when it loads at `l`, and never otherwise.
pub proof fn lemma_picked_count(fs: Seq<File>, l: nat, x: File)
    ensures
        picked(fs, l).to_multiset().count(x) == (if loads_at(x, l) { fs.to_multiset().count(x) } else { 0 }),
    decreases fs.len(),
{
    broadcast use vstd::seq_lib::group_to_multiset_ensures;
    broadcast use vstd::multiset::group_multiset_axioms;
    if fs.len() == 0 {
        assert(picked(fs, l) =~= Seq::<File>::empty());
        assert(!fs.contains(x));
    } else {
        let d = fs.drop_last();
        let f = fs.last();
        lemma_picked_count(d, l, x);
        assert(fs =~= d.push(f));
        assert(fs.to_multiset() =~= d.to_multiset().insert(f));
        let p = picked(d, l);
        if loads_at(f, l) {
            assert(picked(fs, l) == p.push(f));
            assert(picked(fs, l).to_multiset() =~= p.to_multiset().insert(f));
        } else {
            assert(picked(fs, l) == p);
        }
    }
}

/// A file that occurs nowhere in a run of files occurs zero times.
pub proof fn lemma_count_absent(s: Seq<File>, x: File)
    requires
        forall|j: int| 0 <= j < s.len() ==> s[j] != x,
    ensures
        s.to_multiset().count(x) == 0,
{
    broadcast use vstd::seq_lib::group_to_multiset_ensures;
    assert(!s.contains(x));
}

/// Among the files of sound, named levels, a file that loads at level `l`
/// occurs as often as among the files of that level.
pub proof fn lemma_level_files_count(lv: Seq<Seq<Table>>, top: u64, full: Seq<Seq<Table>>, l: int, x: File)
    requires
        levels_sound(full, top),
        named(full),
        lv.len() <= full.len(),
        forall|i: int| 0 <= i < lv.len() ==> lv[i] == full[i],
        0 <= l < full.len(),
        loads_at(x, l as nat),
    ensures
        level_files(lv).to_multiset().count(x) == (if l < lv.len() { table_files(full[l]).to_multiset().count(x) } else { 0 }),
    decreases lv.len(),
{
    broadcast use vstd::seq_lib::group_to_multiset_ensures;
    broadcast use vstd::multiset::group_multiset_axioms;
    if lv.len() == 0 {
        lemma_count_absent(level_files(lv), x);
    } else {
        let d = lv.drop_last();
        let top_level = lv.len() - 1;
        lemma_level_files_count(d, top, full, l, x);
        vstd::seq_lib::lemma_multiset_commutative(level_files(d), table_files(lv.last()));
        assert(level_files(lv) == level_files(d) + table_files(lv.last()));
        if top_level != l {
            let tf = table_files(lv.last());
            assert forall|j: int| 0 <= j < tf.len() implies tf[j] != x by {
                lemma_table_loads(full, top, top_level, j);
                assert(tf[j] == (full[top_level][j].meta.path@, full[top_level][j].image@));
            }
            lemma_count_absent(tf, x);
        }
    }
}

/// The files that load at a level of a listing of the files of sound, named
/// levels are the files of that level.
pub proof fn lemma_picked_level(lv: Seq<Seq<Table>>, top: u64, fs: Seq<File>, l: int)
    requires
        levels_sound(lv, top),
        named(lv),
        lists_tables(fs, lv),
        0 <= l < lv.len(),
    ensures
        picked(fs, l as nat).to_multiset() == table_files(lv[l]).to_multiset(),
{
    assert forall|x: File| #[trigger] picked(fs, l as nat).to_multiset().count(x) == table_files(lv[l]).to_multiset().count(x) by {
        lemma_picked_count(fs, l as nat, x);
        if loads_at(x, l as nat) {
            assert(fs.to_multiset().count(x) == level_files(lv).to_multiset().count(x));
            lemma_level_files_count(lv, top, lv, l, x);
        } else {
            let tf = table_files(lv[l]);
            assert forall|j: int| 0 <= j < tf.len() implies tf[j] != x by {
                lemma_table_loads(lv, top, l, j);
                assert(tf[j] == (lv[l][j].meta.path@, lv[l][j].image@));
            }
            lemma_count_absent(tf, x);
        }
    }
    assert(picked(fs, l as nat).to_multiset() =~= table_files(lv[l]).to_multiset());
}

/// Two runs of files with the same elements, the first strictly and the
/// second weakly increasing in sequence number, are the same run.
pub proof fn lemma_sorted_same(x: Seq<File>, y: Seq<File>)
    requires
        x.to_multiset() == y.to_multiset(),
        forall|a: int, b: int| 0 <= a < b < x.len() ==> file_seq(#[trigger] x[a]) < file_seq(#[trigger] x[b]),
        forall|a: int, b: int| 0 <= a < b < y.len() ==> file_seq(#[trigger] y[a]) <= file_seq(#[trigger] y[b]),
    ensures
        x == y,
    decreases x.len(),
{
    broadcast use vstd::seq_lib::group_to_multiset_ensures;
    broadcast use vstd::multiset::group_multiset_axioms;
    assert(x.to_multiset().len() == x.len());
    assert(y.to_multiset().len() == y.len());
    if x.len() == 0 {
        assert(y.len() == 0);
        assert(x =~= y);
    } else {
        assert(y.len() == x.len());
        assert(x.to_multiset().count(x[0]) > 0);
        assert(y.to_multiset().count(x[0]) > 0);
        assert(y.contains(x[0]));
        let i = choose|i: int| 0 <= i < y.len() && y[i] == x[0];
        assert(x.to_multiset().count(y[0]) > 0);
        assert(x.contains(y[0]));
        let k = choose|k: int| 0 <= k < x.len() && x[k] == y[0];
        if i > 0 {
            assert(file_seq(y[0]) <= file_seq(y[i]));
        }
        if k > 0 {
            assert(file_seq(x[0]) < file_seq(x[k]));
            assert(false);
        }
        assert(y[0] == x[0]);
        assert(x.drop_first().to_multiset() =~= x.to_multiset().remove(x[0])) by {
            assert(x.drop_first() =~= x.remove(0));
        }
        assert(y.drop_first().to_multiset() =~= y.to_multiset().remove(y[0])) by {
            assert(y.drop_first() =~= y.remove(0));
        }
        let xd = x.drop_first();
        let yd = y.drop_first();
        assert forall|a: int, b: int| 0 <= a < b < xd.len() implies file_seq(#[trigger] xd[a]) < file_seq(#[trigger] xd[b]) by {
            assert(xd[a] == x[a + 1] && xd[b] == x[b + 1]);
        }
        assert forall|a: int, b: int| 0 <= a < b < yd.len() implies file_seq(#[trigger] yd[a]) <= file_seq(#[trigger] yd[b]) by {
            assert(yd[a] == y[a + 1] && yd[b] == y[b + 1]);
        }
        lemma_sorted_same(xd, yd);
        assert(x =~= y) by {
            assert forall|a: int| 0 <= a < x.len() implies x[a] == y[a] by {
                if a > 0 {
                    assert(x[a] == xd[a - 1] && y[a] == yd[a - 1]);
                }
            }
        }
    }
}

/// Reloading: listed in any order, the files of sound, named levels load
/// back as levels whose tables agree one for one with the tables written, so the
/// reloaded levels are sound and hold the same runs.
pub proof fn lemma_reload(lv: Seq<Seq<Table>>, top: u64, fs: Seq<File>, lv2: Seq<Seq<Table>>)
    requires
        levels_sound(lv, top),
        named(lv),
        lists_tables(fs, lv),
        loaded_levels(lv2, fs),
    ensures
        lv2.len() == lv.len(),
        forall|i: int| 0 <= i < lv.len() ==> (#[trigger] lv2[i]).len() == lv[i].len(),
        forall|i: int, j: int| 0 <= i < lv.len() && 0 <= j < lv[i].len() ==> same_table(#[trigger] lv2[i][j], lv[i][j]),
        levels_sound(lv2, top),
        named(lv2),
        level_runs(lv2) == level_runs(lv),
{
    assert forall|i: int| 0 <= i < lv.len() implies (#[trigger] lv2[i]).len() == lv[i].len()
        && forall|j: int| 0 <= j < lv[i].len() ==> same_table(#[trigger] lv2[i][j], lv[i][j]) by {
        lemma_picked_level(lv, top, fs, i);
        let x = table_files(lv[i]);
        let y = table_files(lv2[i]);
        assert forall|a: int, b: int| 0 <= a < b < x.len() implies file_seq(#[trigger] x[a]) < file_seq(#[trigger] x[b]) by {
            lemma_table_loads(lv, top, i, a);
            lemma_table_loads(lv, top, i, b);
            assert(x[a] == (lv[i][a].meta.path@, lv[i][a].image@));
            assert(x[b] == (lv[i][b].meta.path@, lv[i][b].image@));
        }
        assert forall|a: int, b: int| 0 <= a < b < y.len() implies file_seq(#[trigger] y[a]) <= file_seq(#[trigger] y[b]) by {
            assert(y[a] == (lv2[i][a].meta.path@, lv2[i][a].image@));
            assert(y[b] == (lv2[i][b].meta.path@, lv2[i][b].image@));
            assert(loaded_from(lv2[i][a], (lv2[i][a].meta.path@, lv2[i][a].image@)));
            assert(loaded_from(lv2[i][b], (lv2[i][b].meta.path@, lv2[i][b].image@)));
            assert(lv2[i][a].meta.sequence <= lv2[i][b].meta.sequence);
        }
        lemma_sorted_same(x, y);
        assert(y.len() == x.len());
        assert forall|j: int| 0 <= j < lv[i].len() implies same_table(#[trigger] lv2[i][j], lv[i][j]) by {
            lemma_table_loads(lv, top, i, j);
            assert(x[j] == y[j]);
            assert(x[j] == (lv[i][j].meta.path@, lv[i][j].image@));
            assert(y[j] == (lv2[i][j].meta.path@, lv2[i][j].image@));
            assert(loaded_from(lv2[i][j], (lv2[i][j].meta.path@, lv2[i][j].image@)));
        }
    }
    assert forall|i: int, j: int| 0 <= i < lv.len() && 0 <= j < lv[i].len() implies same_table(#[trigger] lv2[i][j], lv[i][j]) by {
        assert(lv2[i].len() == lv[i].len());
    }
    assert forall|i: int, j: int| 0 <= i < lv2.len() && 0 <= j < lv2[i].len()
        implies table_ok(#[trigger] lv2[i][j]) && lv2[i][j].meta.sequence <= top by {
        assert(same_table(lv2[i][j], lv[i][j]));
        assert(table_ok(lv[i][j]));
    }
    assert forall|i: int, j: int| 0 <= i < lv2.len() && 0 <= j < lv2[i].len() implies {
        &&& (#[trigger] lv2[i][j]).meta.level == i
        &&& crate::recovery::spec_table_name(vstd::utf8::encode_utf8(lv2[i][j].meta.path@))
            == Some((i as nat, lv2[i][j].meta.sequence))
    } by {
        assert(same_table(lv2[i][j], lv[i][j]));
    }
    assert(level_runs(lv2) =~= level_runs(lv)) by {
        assert forall|i: int| 0 <= i < lv.len() implies #[trigger] level_runs(lv2)[i] == level_runs(lv)[i] by {
            assert(runs_of(lv2[i]) =~= runs_of(lv[i])) by {
                assert forall|j: int| 0 <= j < lv[i].len() implies #[trigger] runs_of(lv2[i])[j] == runs_of(lv[i])[j] by {
                    assert(same_table(lv2[i][j], lv[i][j]));
                }
            }
        }
    }
}

/// The directory that a listing of files describes (a later file of the
/// same name replacing an earlier one).
pub open spec fn dir_of(fs: Seq<(Seq<char>, Seq<u8>)>) -> Map<Seq<char>, Seq<u8>>
    decreases fs.len(),
{
    if fs.len() == 0 {
        Map::empty()
    } else {
        dir_of(fs.drop_last()).insert(fs.last().0, fs.last().1)
    }
}

/// No two files of a listing have the same name.
pub open spec fn distinct_names(fs: Seq<(Seq<char>, Seq<u8>)>) -> bool {
    forall|a: int, b: int| 0 <= a < b < fs.len() ==> (#[trigger] fs[a]).0 != (#[trigger] fs[b]).0
}

/// A file of a listing with distinct names is in the directory it
/// describes.
pub proof fn lemma_dir_of_has(fs: Seq<File>, k: int)
    requires
        distinct_names(fs),
        0 <= k < fs.len(),
    ensures
        dir_of(fs).contains_key(fs[k].0),
        dir_of(fs)[fs[k].0] == fs[k].1,
    decreases fs.len(),
{
    if k < fs.len() - 1 {
        let d = fs.drop_last();
        assert(d[k] == fs[k]);
        assert(fs.last().0 != fs[k].0);
        lemma_dir_of_has(d, k);
    }
}

/// A name in the directory a listing describes is the name of a file of
/// the listing, whose bytes the directory holds.
pub proof fn lemma_dir_of_from(fs: Seq<File>, n: Seq<char>)
    requires
        dir_of(fs).contains_key(n),
    ensures
        exists|k: int| 0 <= k < fs.len() && (#[trigger] fs[k]).0 == n && fs[k].1 == dir_of(fs)[n],
    decreases fs.len(),
{
    let d = fs.drop_last();
    if fs.last().0 != n {
        lemma_dir_of_from(d, n);
        let k = choose|k: int| 0 <= k < d.len() && (#[trigger] d[k]).0 == n && d[k].1 == dir_of(d)[n];
        assert(fs[k] == d[k]);
    } else {
        assert(fs[fs.len() - 1] == fs.last());
    }
}

/// The directory that a listing with distinct names describes holds the
/// file of every table loaded from the listing, and every file in it that
/// loads is the file of a loaded table.
pub proof fn lemma_loaded_dir(lv2: Seq<Seq<Table>>, fs: Seq<File>)
    requires
        loaded_levels(lv2, fs),
        distinct_names(fs),
    ensures
        forall|i: int, j: int| 0 <= i < lv2.len() && 0 <= j < lv2[i].len()
            ==> dir_of(fs).contains_key((#[trigger] lv2[i][j]).meta.path@)
                && dir_of(fs)[lv2[i][j].meta.path@] == lv2[i][j].image@,
        forall|n: Seq<char>| #[trigger] dir_of(fs).contains_key(n) && file_loads((n, dir_of(fs)[n])) is Some
            ==> exists|i: int, j: int| 0 <= i < lv2.len() && 0 <= j < lv2[i].len() && (#[trigger] lv2[i][j]).meta.path@ == n,
{
    broadcast use vstd::seq_lib::group_to_multiset_ensures;
    assert forall|i: int, j: int| 0 <= i < lv2.len() && 0 <= j < lv2[i].len()
        implies dir_of(fs).contains_key((#[trigger] lv2[i][j]).meta.path@)
            && dir_of(fs)[lv2[i][j].meta.path@] == lv2[i][j].image@ by {
        let f = (lv2[i][j].meta.path@, lv2[i][j].image@);
        let tf = table_files(lv2[i]);
        assert(tf[j] == f);
        assert(tf.contains(f));
        assert(tf.to_multiset().count(f) > 0);
        lemma_picked_count(fs, i as nat, f);
        assert(fs.to_multiset().count(f) > 0);
        assert(fs.contains(f));
        let k = choose|k: int| 0 <= k < fs.len() && fs[k] == f;
        lemma_dir_of_has(fs, k);
    }
    assert forall|n: Seq<char>| #[trigger] dir_of(fs).contains_key(n) && file_loads((n, dir_of(fs)[n])) is Some
        implies exists|i: int, j: int| 0 <= i < lv2.len() && 0 <= j < lv2[i].len() && (#[trigger] lv2[i][j]).meta.path@ == n by {
        lemma_dir_of_from(fs, n);
        let k = choose|k: int| 0 <= k < fs.len() && (#[trigger] fs[k]).0 == n && fs[k].1 == dir_of(fs)[n];
        let f = fs[k];
        let l = file_loads(f)->Some_0.0;
        assert(fs.contains(f));
        assert(fs.to_multiset().count(f) > 0);
        lemma_picked_count(fs, l, f);
        assert(l < MAX_LEVELS);
        let tf = table_files(lv2[l as int]);
        assert(tf.to_multiset().count(f) > 0);
        assert(tf.contains(f));
        let j = choose|j: int| 0 <= j < tf.len() && tf[j] == f;
        assert(lv2[l as int][j].meta.path@ == n);
    }
}


/// In a run whose elements differ pairwise, an element occurs once or not at all.
pub proof fn lemma_count_unique(s: Seq<File>, x: File)
    requires
        forall|a: int, b: int| 0 <= a < b < s.len() ==> #[trigger] s[a] != #[trigger] s[b],
    ensures
        s.to_multiset().count(x) == (if s.contains(x) { 1nat } else { 0nat }),
    decreases s.len(),
{
    broadcast use vstd::seq_lib::group_to_multiset_ensures;
    broadcast use vstd::multiset::group_multiset_axioms;
    if s.len() > 0 {
        let d = s.drop_last();
        assert forall|a: int, b: int| 0 <= a < b < d.len() implies #[trigger] d[a] != #[trigger] d[b] by {
            assert(d[a] == s[a] && d[b] == s[b]);
        }
        lemma_count_unique(d, x);
        assert(s =~= d.push(s.last()));
        assert(s.to_multiset() =~= d.to_multiset().insert(s.last()));
        if s.last() == x {
            if d.contains(x) {
                let k = choose|k: int| 0 <= k < d.len() && d[k] == x;
                assert(s[k] == s[s.len() - 1]);
            }
        } else {
            if s.contains(x) {
                let k = choose|k: int| 0 <= k < s.len() && s[k] == x;
                assert(d[k] == x);
            }
        }
    } else {
        assert(!s.contains(x));
    }
}

/// Within a level of sound, named levels a file occurs at most once: once
/// exactly when it is a table's file.
pub proof fn lemma_level_count(lv: Seq<Seq<Table>>, top: u64, l: int, x: File)
    requires
        levels_sound(lv, top),
        named(lv),
        0 <= l < lv.len(),
    ensures
        table_files(lv[l]).to_multiset().count(x) == (if table_files(lv[l]).contains(x) { 1nat } else { 0nat }),
{
    let tf = table_files(lv[l]);
    assert forall|a: int, b: int| 0 <= a < b < tf.len() implies #[trigger] tf[a] != #[trigger] tf[b] by {
        assert(tf[a] == (lv[l][a].meta.path@, lv[l][a].image@));
        assert(tf[b] == (lv[l][b].meta.path@, lv[l][b].image@));
        assert(lv[l][a].meta.sequence < lv[l][b].meta.sequence);
        assert(crate::recovery::spec_table_name(vstd::utf8::encode_utf8(lv[l][a].meta.path@)) == Some((l as nat, lv[l][a].meta.sequence)));
        assert(crate::recovery::spec_table_name(vstd::utf8::encode_utf8(lv[l][b].meta.path@)) == Some((l as nat, lv[l][b].meta.sequence)));
    }
    lemma_count_unique(tf, x);
}

} // verus!
