//! Splitting traced rows into groups by key and aggregating each group.

use vstd::prelude::*;
use crate::aggregation::{
    aggregation_outputs, applicable, apply_builtin_aggregations, direction_column_name,
    direction_named, has_columns, AggKind, AggResult, Aggregation, GroupTable,
};
use crate::error::SdtError;
use crate::text::{copy_strings, dedup, id_views, same_strings};

verus! {

/// The key of row `i`: its cells in the key columns `cols`.
pub open spec fn row_key(t: &GroupTable, cols: Seq<Seq<char>>, i: int) -> Seq<Seq<char>> {
    cols.map_values(|c: Seq<char>| t.column_cells(c)[i])
}

/// The key of every row.
pub open spec fn row_keys(t: &GroupTable, cols: Seq<Seq<char>>) -> Seq<Seq<Seq<char>>> {
    Seq::new(t.rows@.len(), |i: int| row_key(t, cols, i))
}

/// The texts of a sequence of keys.
pub open spec fn key_views(keys: Seq<Vec<String>>) -> Seq<Seq<Seq<char>>> {
    keys.map_values(|k: Vec<String>| id_views(k@))
}

/// `rows` holds, in increasing order, exactly the rows below `n` whose key is `key`.
pub open spec fn rows_with_key(keys: Seq<Seq<Seq<char>>>, key: Seq<Seq<char>>, rows: Seq<usize>, n: int) -> bool {
    &&& forall|a: int, b: int| 0 <= a < b < rows.len() ==> rows[a] < rows[b]
    &&& forall|x: usize| #[trigger] rows.contains(x) <==> (x < n && keys[x as int] == key)
}

/// The default grouping columns: the origin id and the timestamp.
pub open spec fn default_group_columns() -> Seq<Seq<char>> {
    seq!["origin_population_id"@, "date_time"@]
}

/// The default grouping columns: the origin id and the timestamp.
pub fn default_group_by() -> (r: Vec<String>)
    ensures
        id_views(r@) == default_group_columns(),
{
    let mut r: Vec<String> = Vec::new();
    r.push(String::from_str("origin_population_id"));
    r.push(String::from_str("date_time"));
    proof {
        assert(id_views(r@) =~= default_group_columns());
    }
    r
}

/// The summary of one group: its key, its rows, and the outputs of the
/// aggregations on it.
#[derive(Clone, Debug)]
pub struct GroupSummary {
    pub key: Vec<String>,
    pub rows: Vec<usize>,
    pub outputs: Vec<AggResult>,
}

impl GroupTable {
    /// The position of column `name`, or `ColumnNotFound`.
    pub fn column_position(&self, name: &String) -> (r: Result<usize, SdtError>)
        requires
            self.wf(),
        ensures
            match r {
                Ok(c) => self.has_column(name@) && c as int == self.column_pos(name@) && c < self.columns@.len(),
                Err(e) => !self.has_column(name@) && e is ColumnNotFound,
            },
    {
        match crate::text::position_of(&self.columns, name) {
            None => {
                let mut msg = String::from_str("column not found: ");
                msg.append(name.as_str());
                Err(SdtError::ColumnNotFound(msg))
            },
            Some(c) => {
                proof {
                    assert(self.has_column(name@));
                    let p = self.column_pos(name@);
                    assert(id_views(self.columns@)[p] == name@);
                }
                Ok(c)
            },
        }
    }

    /// The positions of the key columns.
    fn key_positions(&self, cols: &Vec<String>) -> (r: Result<Vec<usize>, SdtError>)
        requires
            self.wf(),
        ensures
            match r {
                Ok(ps) => has_columns(self, cols@) && ps@.len() == cols@.len() && forall|k: int|
                    0 <= k < ps@.len() ==> #[trigger] ps@[k] as int == self.column_pos(cols@[k]@) && ps@[k] < self.columns@.len(),
                Err(e) => !has_columns(self, cols@) && e is ColumnNotFound,
            },
    {
        let mut ps: Vec<usize> = Vec::new();
        let mut k: usize = 0;
        while k < cols.len()
            invariant
                self.wf(),
                k <= cols@.len(),
                ps@.len() == k,
                forall|j: int| 0 <= j < k ==> self.has_column(#[trigger] cols@[j]@),
                forall|j: int|
                    0 <= j < k ==> #[trigger] ps@[j] as int == self.column_pos(cols@[j]@) && ps@[j] < self.columns@.len(),
            decreases cols@.len() - k,
        {
            match self.column_position(&cols[k]) {
                Ok(c) => ps.push(c),
                Err(e) => {
                    return Err(e);
                },
            }
            k += 1;
        }
        Ok(ps)
    }

    /// The key of row `i`.
    fn key_of_row(&self, cols: &Vec<String>, ps: &Vec<usize>, i: usize) -> (r: Vec<String>)
        requires
            self.wf(),
            i < self.rows@.len(),
            ps@.len() == cols@.len(),
            forall|k: int| 0 <= k < ps@.len() ==> #[trigger] ps@[k] as int == self.column_pos(cols@[k]@) && ps@[k] < self.columns@.len(),
        ensures
            id_views(r@) == row_key(self, id_views(cols@), i as int),
    {
        let mut r: Vec<String> = Vec::new();
        let mut k: usize = 0;
        while k < ps.len()
            invariant
                self.wf(),
                i < self.rows@.len(),
                ps@.len() == cols@.len(),
                forall|k: int| 0 <= k < ps@.len() ==> #[trigger] ps@[k] as int == self.column_pos(cols@[k]@) && ps@[k] < self.columns@.len(),
                k <= ps@.len(),
                id_views(r@) == row_key(self, id_views(cols@), i as int).subrange(0, k as int),
            decreases ps@.len() - k,
        {
            assert(self.rows@[i as int]@.len() == self.columns@.len());
            let p = ps[k];
            let cell = self.rows[i][p].clone();
            proof {
                assert(self.column_cells(cols@[k as int]@)[i as int] == self.rows@[i as int]@[p as int]@);
                assert(row_key(self, id_views(cols@), i as int)[k as int] == cell@);
            }
            let ghost r0 = r@;
            r.push(cell);
            proof {
                assert(r@ == r0.push(cell));
                assert(id_views(r@) =~= id_views(r0).push(cell@));
                assert(id_views(r@) =~= row_key(self, id_views(cols@), i as int).subrange(0, k + 1));
            }
            k += 1;
        }
        proof {
            assert(row_key(self, id_views(cols@), i as int).subrange(0, k as int) =~= row_key(self, id_views(cols@), i as int));
        }
        r
    }

    /// The table of the rows `idxs`, in that order, with the same columns.
    pub fn select_rows(&self, idxs: &Vec<usize>) -> (r: GroupTable)
        requires
            self.wf(),
            forall|j: int| 0 <= j < idxs@.len() ==> #[trigger] idxs@[j] < self.rows@.len(),
        ensures
            r.wf(),
            r.columns@ == self.columns@,
            r.rows@.len() == idxs@.len(),
            forall|j: int| 0 <= j < idxs@.len() ==> #[trigger] r.rows@[j]@ == self.rows@[idxs@[j] as int]@,
    {
        let mut rows: Vec<Vec<String>> = Vec::new();
        let mut j: usize = 0;
        while j < idxs.len()
            invariant
                self.wf(),
                forall|j: int| 0 <= j < idxs@.len() ==> #[trigger] idxs@[j] < self.rows@.len(),
                j <= idxs@.len(),
                rows@.len() == j,
                forall|k: int| 0 <= k < j ==> #[trigger] rows@[k]@ == self.rows@[idxs@[k] as int]@,
            decreases idxs@.len() - j,
        {
            let row = copy_strings(&self.rows[idxs[j]]);
            proof {
                assert(row@ == self.rows@[idxs@[j as int] as int]@);
            }
            rows.push(row);
            j += 1;
        }
        let columns = copy_strings(&self.columns);
        let r = GroupTable { columns, rows };
        proof {
            assert forall|k: int| 0 <= k < r.rows@.len() implies #[trigger] r.rows@[k]@.len() == r.columns@.len() by {
                assert(r.rows@[k]@ == self.rows@[idxs@[k] as int]@);
            }
        }
        r
    }
}

} // verus!

verus! {

/// Position of key `k` among `gkeys`, if there.
fn find_key(gkeys: &Vec<Vec<String>>, k: &Vec<String>) -> (r: Option<usize>)
    ensures
        match r {
            Some(g) => g < gkeys@.len() && key_views(gkeys@)[g as int] == id_views(k@),
            None => !key_views(gkeys@).contains(id_views(k@)),
        },
{
    let mut g: usize = 0;
    while g < gkeys.len()
        invariant
            g <= gkeys@.len(),
            forall|j: int| 0 <= j < g ==> key_views(gkeys@)[j] != id_views(k@),
        decreases gkeys@.len() - g,
    {
        if same_strings(&gkeys[g], k) {
            return Some(g);
        }
        g += 1;
    }
    proof {
        if key_views(gkeys@).contains(id_views(k@)) {
            let j = choose|j: int| 0 <= j < key_views(gkeys@).len() && key_views(gkeys@)[j] == id_views(k@);
        }
    }
    None
}

/// Splits the rows of `t` by their key in columns `cols`: the distinct keys in
/// order of first occurrence and, for each, its rows in order.
pub fn partition_by(t: &GroupTable, cols: &Vec<String>) -> (r: Result<(Vec<Vec<String>>, Vec<Vec<usize>>), SdtError>)
    requires
        t.wf(),
    ensures
        match r {
            Ok((gkeys, groups)) => {
                &&& has_columns(t, cols@)
                &&& key_views(gkeys@) == dedup(row_keys(t, id_views(cols@)))
                &&& groups@.len() == gkeys@.len()
                &&& forall|g: int| 0 <= g < groups@.len() ==> rows_with_key(
                    row_keys(t, id_views(cols@)),
                    key_views(gkeys@)[g],
                    #[trigger] groups@[g]@,
                    t.rows@.len() as int,
                )
            },
            Err(e) => !has_columns(t, cols@) && e is ColumnNotFound,
        },
{
    let ps = match t.key_positions(cols) {
        Ok(ps) => ps,
        Err(e) => {
            return Err(e);
        },
    };
    let ghost keys = row_keys(t, id_views(cols@));
    let mut gkeys: Vec<Vec<String>> = Vec::new();
    let mut groups: Vec<Vec<usize>> = Vec::new();
    let mut i: usize = 0;
    proof {
        assert(key_views(gkeys@) =~= dedup(keys.subrange(0, 0)));
    }
    while i < t.rows.len()
        invariant
            t.wf(),
            keys == row_keys(t, id_views(cols@)),
            ps@.len() == cols@.len(),
            forall|k: int| 0 <= k < ps@.len() ==> #[trigger] ps@[k] as int == t.column_pos(cols@[k]@) && ps@[k] < t.columns@.len(),
            i <= t.rows@.len(),
            key_views(gkeys@) == dedup(keys.subrange(0, i as int)),
            groups@.len() == gkeys@.len(),
            forall|g: int| 0 <= g < groups@.len() ==> rows_with_key(keys, key_views(gkeys@)[g], #[trigger] groups@[g]@, i as int),
        decreases t.rows@.len() - i,
    {
        let k = t.key_of_row(cols, &ps, i);
        let ghost kv = id_views(k@);
        let ghost gk0 = key_views(gkeys@);
        let ghost groups0 = groups@;
        proof {
            assert(keys[i as int] == kv);
            assert(keys.subrange(0, i + 1).drop_last() =~= keys.subrange(0, i as int));
            assert(keys.subrange(0, i + 1).last() == kv);
            crate::text::lemma_dedup_props(keys.subrange(0, i as int));
        }
        match find_key(&gkeys, &k) {
            Some(g) => {
                let mut v = crate::walks::copy_indices(&groups[g]);
                let ghost v0 = v@;
                v.push(i);
                groups.set(g, v);
                proof {
                    assert forall|h: int| 0 <= h < groups@.len() implies rows_with_key(keys, key_views(gkeys@)[h], #[trigger] groups@[h]@, i + 1) by {
                        let gv = groups@[h]@;
                        if h == g as int {
                            assert(gv == v0.push(i));
                            assert(rows_with_key(keys, gk0[h], groups0[h]@, i as int));
                            assert forall|x: usize| #[trigger] gv.contains(x) <==> (x < i + 1 && keys[x as int] == gk0[h]) by {
                                crate::walks::lemma_push_contains(v0, i);
                                if gv.contains(x) && x != i {
                                    crate::walks::lemma_pop_contains(gv, x);
                                    assert(gv.drop_last() =~= v0);
                                }
                            }
                            assert forall|a: int, b: int| 0 <= a < b < gv.len() implies gv[a] < gv[b] by {
                                if b == gv.len() - 1 {
                                    assert(v0.contains(v0[a]));
                                }
                            }
                        } else {
                            assert(groups@[h] == groups0[h]);
                            assert(rows_with_key(keys, gk0[h], groups0[h]@, i as int));
                            assert(gk0[h] != gk0[g as int]);
                            assert forall|x: usize| #[trigger] gv.contains(x) <==> (x < i + 1 && keys[x as int] == gk0[h]) by {
                            }
                        }
                    }
                }
            },
            None => {
                let mut v: Vec<usize> = Vec::new();
                v.push(i);
                gkeys.push(k);
                groups.push(v);
                proof {
                    assert(key_views(gkeys@) =~= gk0.push(kv));
                    assert forall|h: int| 0 <= h < groups@.len() implies rows_with_key(keys, key_views(gkeys@)[h], #[trigger] groups@[h]@, i + 1) by {
                        let gv = groups@[h]@;
                        if h == groups0.len() {
                            assert(gv == seq![i]);
                            assert forall|x: usize| #[trigger] gv.contains(x) <==> (x < i + 1 && keys[x as int] == kv) by {
                                assert(gv[0] == i);
                                if x < i && keys[x as int] == kv {
                                    assert(keys.subrange(0, i as int)[x as int] == kv);
                                    assert(keys.subrange(0, i as int).contains(kv));
                                    assert(dedup(keys.subrange(0, i as int)).contains(kv));
                                    assert(gk0.contains(kv));
                                }
                            }
                        } else {
                            assert(groups@[h] == groups0[h]);
                            assert(rows_with_key(keys, gk0[h], groups0[h]@, i as int));
                            assert(gk0.contains(gk0[h]));
                            assert(gk0[h] != kv);
                            assert forall|x: usize| #[trigger] gv.contains(x) <==> (x < i + 1 && keys[x as int] == gk0[h]) by {
                            }
                        }
                    }
                }
            },
        }
        i += 1;
    }
    proof {
        assert(keys.subrange(0, i as int) =~= keys);
    }
    Ok((gkeys, groups))
}

} // verus!

verus! {

/// The grouping columns: those given, or the default ones.
pub open spec fn group_columns(group_by: Option<Vec<String>>) -> Seq<Seq<char>> {
    match group_by {
        Some(v) => id_views(v@),
        None => default_group_columns(),
    }
}

/// `outs` are the outputs of `aggs` on the rows `rows` of `t`.
pub open spec fn summarizes(t: &GroupTable, aggs: Seq<Aggregation>, rows: Seq<usize>, outs: Seq<AggResult>) -> bool {
    exists|sub: GroupTable|
        sub.columns@ == t.columns@ && sub.rows@.len() == rows.len() && (forall|j: int|
            0 <= j < rows.len() ==> (#[trigger] sub.rows@[j])@ == t.rows@[rows[j] as int]@)
            && #[trigger] aggregation_outputs(&sub, aggs, outs)
}

/// Every key column is in the table.
pub open spec fn has_key_columns(t: &GroupTable, cols: Seq<Seq<char>>) -> bool {
    forall|k: int| 0 <= k < cols.len() ==> t.has_column(#[trigger] cols[k])
}

/// An aggregation that applies to a table applies to any selection of its rows.
pub proof fn lemma_applicable_on_rows(t: &GroupTable, sub: &GroupTable, idxs: Seq<usize>, kind: AggKind)
    requires
        sub.columns@ == t.columns@,
        sub.rows@.len() == idxs.len(),
        forall|j: int| 0 <= j < idxs.len() ==> #[trigger] idxs[j] < t.rows@.len(),
        forall|j: int| 0 <= j < idxs.len() ==> (#[trigger] sub.rows@[j])@ == t.rows@[idxs[j] as int]@,
        applicable(t, kind),
    ensures
        applicable(sub, kind),
{
    assert(id_views(sub.columns@) == id_views(t.columns@));
    if t.directions_valid() {
        let d = direction_column_name();
        assert(sub.column_pos(d) == t.column_pos(d));
        assert forall|j: int| 0 <= j < sub.rows@.len() implies (#[trigger] direction_named(
            sub.column_cells(d)[j],
        )).is_some() by {
            let x = idxs[j] as int;
            assert(sub.column_cells(d)[j] == sub.rows@[j]@[sub.column_pos(d)]@);
            assert(t.column_cells(d)[x] == t.rows@[x]@[t.column_pos(d)]@);
            assert(direction_named(t.column_cells(d)[x]).is_some());
        }
    }
}

/// Groups the rows of `traced_data` by the `group_by` columns (by default the
/// origin id and the timestamp) and applies every aggregation to each group.
/// There is one summary per distinct key, in order of first occurrence.
pub fn aggregate_traced_data(
    traced_data: &GroupTable,
    aggregations: &Vec<Aggregation>,
    group_by: Option<Vec<String>>,
) -> (r: Result<Vec<GroupSummary>, SdtError>)
    requires
        traced_data.wf(),
    ensures
        match r {
            Ok(out) => {
                let keys = row_keys(traced_data, group_columns(group_by));
                &&& out@.len() == dedup(keys).len()
                &&& forall|g: int|
                    0 <= g < out@.len() ==> id_views((#[trigger] out@[g]).key@) == dedup(keys)[g]
                        && rows_with_key(keys, dedup(keys)[g], out@[g].rows@, traced_data.rows@.len() as int)
                        && summarizes(traced_data, aggregations@, out@[g].rows@, out@[g].outputs@)
            },
            Err(e) => e is ColumnNotFound || e is UnknownDirection,
        },
        has_key_columns(traced_data, group_columns(group_by)) && (forall|k: int|
            0 <= k < aggregations@.len() ==> applicable(traced_data, #[trigger] aggregations@[k].kind))
            ==> r.is_ok(),
{
    let ghost owed = has_key_columns(traced_data, group_columns(group_by)) && (forall|k: int|
        0 <= k < aggregations@.len() ==> applicable(traced_data, #[trigger] aggregations@[k].kind));
    let cols = match group_by {
        Some(v) => v,
        None => default_group_by(),
    };
    let ghost keys = row_keys(traced_data, id_views(cols@));
    proof {
        assert(id_views(cols@) == group_columns(group_by));
    }
    let (gkeys, groups) = match partition_by(traced_data, &cols) {
        Ok(p) => p,
        Err(e) => {
            proof {
                if owed {
                    assert forall|k: int| 0 <= k < cols@.len() implies traced_data.has_column(#[trigger] cols@[k]@) by {
                        assert(id_views(cols@)[k] == cols@[k]@);
                    }
                }
            }
            return Err(e);
        },
    };
    let mut out: Vec<GroupSummary> = Vec::new();
    let mut g: usize = 0;
    while g < groups.len()
        invariant
            traced_data.wf(),
            keys == row_keys(traced_data, id_views(cols@)),
            key_views(gkeys@) == dedup(keys),
            groups@.len() == gkeys@.len(),
            forall|h: int| 0 <= h < groups@.len() ==> rows_with_key(
                keys,
                key_views(gkeys@)[h],
                #[trigger] groups@[h]@,
                traced_data.rows@.len() as int,
            ),
            g <= groups@.len(),
            out@.len() == g,
            owed == (has_key_columns(traced_data, group_columns(group_by)) && (forall|k: int|
                0 <= k < aggregations@.len() ==> applicable(traced_data, #[trigger] aggregations@[k].kind))),
            forall|h: int|
                0 <= h < g ==> id_views((#[trigger] out@[h]).key@) == dedup(keys)[h]
                    && rows_with_key(keys, dedup(keys)[h], out@[h].rows@, traced_data.rows@.len() as int)
                    && summarizes(traced_data, aggregations@, out@[h].rows@, out@[h].outputs@),
        decreases groups@.len() - g,
    {
        let idxs = crate::walks::copy_indices(&groups[g]);
        proof {
            assert(rows_with_key(keys, key_views(gkeys@)[g as int], groups@[g as int]@, traced_data.rows@.len() as int));
            assert forall|j: int| 0 <= j < idxs@.len() implies #[trigger] idxs@[j] < traced_data.rows@.len() by {
                assert(groups@[g as int]@.contains(idxs@[j]));
            }
        }
        let sub = traced_data.select_rows(&idxs);
        let outputs = match apply_builtin_aggregations(&sub, aggregations) {
            Ok(o) => o,
            Err(e) => {
                proof {
                    if owed {
                        assert forall|k: int| 0 <= k < aggregations@.len() implies applicable(&sub, #[trigger] aggregations@[k].kind) by {
                            lemma_applicable_on_rows(traced_data, &sub, idxs@, aggregations@[k].kind);
                        }
                    }
                }
                return Err(e);
            },
        };
        let key = copy_strings(&gkeys[g]);
        proof {
            assert(key_views(gkeys@)[g as int] == id_views(gkeys@[g as int]@));
            assert(summarizes(traced_data, aggregations@, idxs@, outputs@));
        }
        out.push(GroupSummary { key, rows: idxs, outputs });
        g += 1;
    }
    Ok(out)
}

/// Without an explicit grouping, the summaries carry each distinct
/// (origin id, timestamp) pair of the input exactly once.
pub proof fn lemma_default_grouping_one_summary_per_pair(t: &GroupTable, summary_keys: Seq<Seq<Seq<char>>>)
    requires
        summary_keys == dedup(row_keys(t, group_columns(None))),
    ensures
        group_columns(None) == seq!["origin_population_id"@, "date_time"@],
        summary_keys.no_duplicates(),
        forall|k: Seq<Seq<char>>|
            #[trigger] summary_keys.contains(k) <==> exists|i: int|
                0 <= i < t.rows@.len() && row_key(t, group_columns(None), i) == k,
{
    let keys = row_keys(t, group_columns(None));
    crate::text::lemma_dedup_props(keys);
    assert forall|k: Seq<Seq<char>>|
        #[trigger] summary_keys.contains(k) <==> exists|i: int|
            0 <= i < t.rows@.len() && row_key(t, group_columns(None), i) == k by {
        if keys.contains(k) {
            let i = choose|i: int| 0 <= i < keys.len() && keys[i] == k;
            assert(row_key(t, group_columns(None), i) == k);
        }
        if exists|i: int| 0 <= i < t.rows@.len() && row_key(t, group_columns(None), i) == k {
            let i = choose|i: int| 0 <= i < t.rows@.len() && row_key(t, group_columns(None), i) == k;
            assert(keys[i] == k);
        }
    }
}

} // verus!
