//! Declarative aggregations over one group of traced rows.

use vstd::prelude::*;
use crate::dag_tracer::Direction;
use crate::error::SdtError;
use crate::text::{dedup, dedup_strings, id_views, join, join_strings, position_of};

verus! {

/// Aggregation dimension for direction-aware weighted operations.
#[derive(Clone, Copy, Debug, PartialEq, Eq, Structural)]
pub enum AggregateBy {
    Count,
    Biomass,
}

/// One of the four share factor columns of a trace row.
#[derive(Clone, Copy, Debug, PartialEq, Eq, Structural)]
pub enum FactorColumn {
    CountForward,
    BiomassForward,
    CountBackward,
    BiomassBackward,
}

/// The weight that a row carries in a weighted aggregation.
#[derive(Clone, Copy, Debug, PartialEq, Eq, Structural)]
pub enum Weight {
    /// The weight one (identity rows).
    One,
    /// The row's value in a share factor column.
    Factor(FactorColumn),
}

/// The factor column of dimension `by` in the given direction.
pub open spec fn factor_of(by: AggregateBy, forward: bool) -> FactorColumn {
    match (by, forward) {
        (AggregateBy::Count, true) => FactorColumn::CountForward,
        (AggregateBy::Biomass, true) => FactorColumn::BiomassForward,
        (AggregateBy::Count, false) => FactorColumn::CountBackward,
        (AggregateBy::Biomass, false) => FactorColumn::BiomassBackward,
    }
}

/// Weighted sums scale by the opposite direction's share: forward rows take
/// the backward factor, backward rows the forward one.
pub open spec fn sum_weight_spec(dir: Direction, by: AggregateBy) -> Weight {
    match dir {
        Direction::Identity => Weight::One,
        Direction::Forward => Weight::Factor(factor_of(by, false)),
        Direction::Backward => Weight::Factor(factor_of(by, true)),
    }
}

/// Weighted averages weigh by the matching direction's share.
pub open spec fn avg_weight_spec(dir: Direction, by: AggregateBy) -> Weight {
    match dir {
        Direction::Identity => Weight::One,
        Direction::Forward => Weight::Factor(factor_of(by, true)),
        Direction::Backward => Weight::Factor(factor_of(by, false)),
    }
}

/// The factor column of dimension `by` in the given direction.
pub fn factor_column(by: AggregateBy, forward: bool) -> (r: FactorColumn)
    ensures
        r == factor_of(by, forward),
{
    match (by, forward) {
        (AggregateBy::Count, true) => FactorColumn::CountForward,
        (AggregateBy::Biomass, true) => FactorColumn::BiomassForward,
        (AggregateBy::Count, false) => FactorColumn::CountBackward,
        (AggregateBy::Biomass, false) => FactorColumn::BiomassBackward,
    }
}

/// The weight of a row of direction `dir` in a weighted sum.
pub fn sum_weight(dir: Direction, by: AggregateBy) -> (r: Weight)
    ensures
        r == sum_weight_spec(dir, by),
{
    match dir {
        Direction::Identity => Weight::One,
        Direction::Forward => Weight::Factor(factor_column(by, false)),
        Direction::Backward => Weight::Factor(factor_column(by, true)),
    }
}

/// The weight of a row of direction `dir` in a weighted average.
pub fn avg_weight(dir: Direction, by: AggregateBy) -> (r: Weight)
    ensures
        r == avg_weight_spec(dir, by),
{
    match dir {
        Direction::Identity => Weight::One,
        Direction::Forward => Weight::Factor(factor_column(by, true)),
        Direction::Backward => Weight::Factor(factor_column(by, false)),
    }
}

/// The two weighted operations read opposite factors: on a forward row and on
/// a backward row, the sum's weight is the average's weight of the other
/// direction, and both give identity rows the weight one.
pub proof fn lemma_sum_and_avg_weights_swap(by: AggregateBy)
    ensures
        sum_weight_spec(Direction::Forward, by) == avg_weight_spec(Direction::Backward, by),
        sum_weight_spec(Direction::Backward, by) == avg_weight_spec(Direction::Forward, by),
        sum_weight_spec(Direction::Forward, by) == Weight::Factor(factor_of(by, false)),
        avg_weight_spec(Direction::Forward, by) == Weight::Factor(factor_of(by, true)),
        sum_weight_spec(Direction::Forward, by) != avg_weight_spec(Direction::Forward, by),
        sum_weight_spec(Direction::Identity, by) == Weight::One,
        avg_weight_spec(Direction::Identity, by) == Weight::One,
{
}

} // verus!

verus! {

/// The text of each direction, as trace tables hold it.
pub open spec fn direction_text(d: Direction) -> Seq<char> {
    match d {
        Direction::Identity => "identity"@,
        Direction::Forward => "forward"@,
        Direction::Backward => "backward"@,
    }
}

/// The direction that a text names, if any.
pub open spec fn direction_named(t: Seq<char>) -> Option<Direction> {
    if t == "identity"@ {
        Some(Direction::Identity)
    } else if t == "forward"@ {
        Some(Direction::Forward)
    } else if t == "backward"@ {
        Some(Direction::Backward)
    } else {
        None
    }
}

/// Reads a direction; any text but the three names is refused.
pub fn parse_direction(s: &String) -> (r: Result<Direction, SdtError>)
    ensures
        match r {
            Ok(d) => direction_named(s@) == Some(d),
            Err(e) => direction_named(s@).is_none() && e is UnknownDirection,
        },
{
    let identity = String::from_str("identity");
    let forward = String::from_str("forward");
    let backward = String::from_str("backward");
    if *s == identity {
        Ok(Direction::Identity)
    } else if *s == forward {
        Ok(Direction::Forward)
    } else if *s == backward {
        Ok(Direction::Backward)
    } else {
        let mut msg = String::from_str("unknown direction: ");
        msg.append(s.as_str());
        Err(SdtError::UnknownDirection(msg))
    }
}

/// The text of a direction.
pub fn direction_to_text(d: Direction) -> (r: String)
    ensures
        r@ == direction_text(d),
{
    match d {
        Direction::Identity => String::from_str("identity"),
        Direction::Forward => String::from_str("forward"),
        Direction::Backward => String::from_str("backward"),
    }
}

/// The column name of a share factor.
pub open spec fn factor_name(f: FactorColumn) -> Seq<char> {
    match f {
        FactorColumn::CountForward => "share_count_forward"@,
        FactorColumn::BiomassForward => "share_biomass_forward"@,
        FactorColumn::CountBackward => "share_count_backward"@,
        FactorColumn::BiomassBackward => "share_biomass_backward"@,
    }
}

/// The column name of a share factor.
pub fn factor_column_name(f: FactorColumn) -> (r: String)
    ensures
        r@ == factor_name(f),
{
    match f {
        FactorColumn::CountForward => String::from_str("share_count_forward"),
        FactorColumn::BiomassForward => String::from_str("share_biomass_forward"),
        FactorColumn::CountBackward => String::from_str("share_count_backward"),
        FactorColumn::BiomassBackward => String::from_str("share_biomass_backward"),
    }
}

/// The name of the direction column of a trace table.
pub open spec fn direction_column_name() -> Seq<char> {
    "direction"@
}

/// One group of rows: column names and, for each row, the text of each cell.
#[derive(Clone, Debug)]
pub struct GroupTable {
    pub columns: Vec<String>,
    pub rows: Vec<Vec<String>>,
}

impl GroupTable {
    /// Column names are distinct and every row has one cell per column.
    pub open spec fn wf(&self) -> bool {
        &&& id_views(self.columns@).no_duplicates()
        &&& forall|i: int| 0 <= i < self.rows@.len() ==> #[trigger] self.rows@[i]@.len() == self.columns@.len()
    }

    pub open spec fn has_column(&self, name: Seq<char>) -> bool {
        id_views(self.columns@).contains(name)
    }

    /// The position of column `name`.
    pub open spec fn column_pos(&self, name: Seq<char>) -> int {
        choose|i: int| 0 <= i < self.columns@.len() && self.columns@[i]@ == name
    }

    /// The cells of column `name`, row by row.
    pub open spec fn column_cells(&self, name: Seq<char>) -> Seq<Seq<char>> {
        let c = self.column_pos(name);
        self.rows@.map_values(|r: Vec<String>| r@[c]@)
    }

    /// The direction of every row, when the direction column is there and
    /// every one of its cells names a direction.
    pub open spec fn directions_valid(&self) -> bool {
        &&& self.has_column(direction_column_name())
        &&& forall|i: int|
            0 <= i < self.rows@.len() ==> (#[trigger] direction_named(
                self.column_cells(direction_column_name())[i],
            )).is_some()
    }

    pub open spec fn row_direction(&self, i: int) -> Direction {
        direction_named(self.column_cells(direction_column_name())[i]).unwrap()
    }

    /// The cells of column `name`, or `ColumnNotFound` if there is none.
    pub fn column_values(&self, name: &String) -> (r: Result<Vec<String>, SdtError>)
        requires
            self.wf(),
        ensures
            match r {
                Ok(v) => self.has_column(name@) && id_views(v@) == self.column_cells(name@),
                Err(e) => !self.has_column(name@) && e is ColumnNotFound,
            },
    {
        match position_of(&self.columns, name) {
            None => {
                let mut msg = String::from_str("column not found: ");
                msg.append(name.as_str());
                Err(SdtError::ColumnNotFound(msg))
            },
            Some(c) => {
                proof {
                    assert(self.has_column(name@));
                    let p = self.column_pos(name@);
                    assert(id_views(self.columns@)[p] == name@);
                    assert(p == c as int);
                }
                let mut v: Vec<String> = Vec::new();
                let mut i: usize = 0;
                while i < self.rows.len()
                    invariant
                        self.wf(),
                        c as int == self.column_pos(name@),
                        c < self.columns@.len(),
                        i <= self.rows@.len(),
                        id_views(v@) == self.column_cells(name@).subrange(0, i as int),
                    decreases self.rows@.len() - i,
                {
                    assert(self.rows@[i as int]@.len() == self.columns@.len());
                    let ghost vv = v@;
                    let cell = self.rows[i][c].clone();
                    assert(cell@ == self.rows@[i as int]@[c as int]@);
                    assert(id_views(vv).len() == vv.len());
                    v.push(cell);
                    assert(v@ == vv.push(cell));
                    assert(v@[i as int] == cell);
                    proof {
                        assert(self.column_cells(name@)[i as int] == self.rows@[i as int]@[c as int]@);
                        assert(id_views(v@)[i as int] == self.rows@[i as int]@[c as int]@);
                        assert forall|k: int| 0 <= k < i implies id_views(v@)[k] == id_views(vv)[k] by {
                            assert(v@[k] == vv[k]);
                        }
                        assert(id_views(v@) =~= self.column_cells(name@).subrange(0, i + 1));
                    }
                    i += 1;
                }
                proof {
                    assert(self.column_cells(name@).subrange(0, i as int) =~= self.column_cells(name@));
                }
                Ok(v)
            },
        }
    }

    /// The direction of every row, or the error of the first that fails.
    pub fn row_directions(&self) -> (r: Result<Vec<Direction>, SdtError>)
        requires
            self.wf(),
        ensures
            match r {
                Ok(ds) => self.directions_valid() && ds@.len() == self.rows@.len() && forall|i: int|
                    0 <= i < ds@.len() ==> #[trigger] ds@[i] == self.row_direction(i),
                Err(e) => !self.directions_valid() && (e is ColumnNotFound || e is UnknownDirection),
            },
    {
        let name = String::from_str("direction");
        let cells = match self.column_values(&name) {
            Ok(v) => v,
            Err(e) => {
                return Err(e);
            },
        };
        let mut ds: Vec<Direction> = Vec::new();
        let mut i: usize = 0;
        proof {
            assert(id_views(cells@).len() == cells@.len());
        }
        while i < cells.len()
            invariant
                self.wf(),
                self.has_column(direction_column_name()),
                id_views(cells@) == self.column_cells(direction_column_name()),
                i <= cells@.len(),
                cells@.len() == self.rows@.len(),
                ds@.len() == i,
                forall|k: int| 0 <= k < i ==> (#[trigger] direction_named(
                    self.column_cells(direction_column_name())[k],
                )) == Some(ds@[k]),
            decreases cells@.len() - i,
        {
            assert(id_views(cells@)[i as int] == cells@[i as int]@);
            match parse_direction(&cells[i]) {
                Ok(d) => {
                    ds.push(d);
                },
                Err(e) => {
                    proof {
                        assert(direction_named(self.column_cells(direction_column_name())[i as int]).is_none());
                    }
                    return Err(e);
                },
            }
            i += 1;
        }
        proof {
            assert(id_views(cells@).len() == cells@.len());
            assert(self.column_cells(direction_column_name()).len() == self.rows@.len());
            assert forall|k: int| 0 <= k < self.rows@.len() implies (#[trigger] direction_named(
                self.column_cells(direction_column_name())[k],
            )).is_some() by {
            }
        }
        Ok(ds)
    }
}

} // verus!

verus! {

/// A declarative aggregation kind.
#[derive(Clone, Debug)]
pub enum AggKind {
    /// Hands the whole group to the caller's callable number `handle`.
    Custom { handle: usize },
    Min { column: String, alias: Option<String> },
    Max { column: String, alias: Option<String> },
    Sum { columns: Vec<String> },
    Avg { columns: Vec<String> },
    WeightedSum { columns: Vec<String>, aggregate_by: AggregateBy, include_calculation: bool },
    WeightedAvg { column: String, aggregate_by: AggregateBy },
    Concat { columns: Vec<String>, separator: String, unique: bool },
    ContributionBreakdown {
        columns: Vec<String>,
        field_separator: String,
        row_separator: String,
        alias: Option<String>,
    },
}

/// A declarative aggregation specification.
#[derive(Clone, Debug)]
pub struct Aggregation {
    pub kind: AggKind,
}

/// A numeric reduction of one column.
#[derive(Clone, Copy, Debug, PartialEq, Eq, Structural)]
pub enum Reduction {
    Min,
    Max,
    Sum,
    Mean,
}

/// A direction-aware weighted reduction.
#[derive(Clone, Copy, Debug, PartialEq, Eq, Structural)]
pub enum WeightedOp {
    /// The sum of value times weight.
    Sum,
    /// The sum of value times weight over the sum of weights.
    Avg,
}

/// One row's value and weight in a weighted reduction; `None` is the weight one.
#[derive(Clone, Debug)]
pub struct WeightedTerm {
    pub value: String,
    pub weight: Option<String>,
}

/// The value of one output column, in the form that the numeric stage
/// consumes: text is final, reductions carry the cells they reduce.
#[derive(Clone, Debug)]
pub enum AggValue {
    Text(String),
    Reduce(Reduction, Vec<String>),
    Weighted(WeightedOp, Vec<WeightedTerm>),
    /// Stands for the mapping that callable number `handle` returns.
    Custom(usize),
}

/// One named output of an aggregation.
#[derive(Clone, Debug)]
pub struct AggResult {
    pub name: String,
    pub value: AggValue,
}

/// The output name `alias`, or `column` followed by `suffix`.
pub open spec fn output_name(column: Seq<char>, alias: Option<String>, suffix: Seq<char>) -> Seq<char> {
    match alias {
        Some(a) => a@,
        None => column + suffix,
    }
}

/// The text of a concat output.
pub open spec fn concat_text(cells: Seq<Seq<char>>, sep: Seq<char>, unique: bool) -> Seq<char> {
    if unique {
        join(dedup(cells), sep)
    } else {
        join(cells, sep)
    }
}

/// `v` is the reduction `red` of the cells of column `c`.
pub open spec fn is_reduction_of(t: &GroupTable, v: AggValue, red: Reduction, c: Seq<char>) -> bool {
    match v {
        AggValue::Reduce(r, cells) => r == red && id_views(cells@) == t.column_cells(c),
        _ => false,
    }
}

/// The weight that row `i` takes in a weighted operation.
pub open spec fn row_weight(t: &GroupTable, i: int, by: AggregateBy, op: WeightedOp) -> Weight {
    match op {
        WeightedOp::Sum => sum_weight_spec(t.row_direction(i), by),
        WeightedOp::Avg => avg_weight_spec(t.row_direction(i), by),
    }
}

/// `terms` pair each row's cell of column `c` with its weight under `op`.
pub open spec fn terms_match(t: &GroupTable, c: Seq<char>, by: AggregateBy, op: WeightedOp, terms: Seq<WeightedTerm>) -> bool {
    &&& terms.len() == t.rows@.len()
    &&& forall|i: int|
        0 <= i < terms.len() ==> (#[trigger] terms[i]).value@ == t.column_cells(c)[i] && match row_weight(t, i, by, op) {
            Weight::One => terms[i].weight.is_none(),
            Weight::Factor(f) => terms[i].weight.is_some() && terms[i].weight.unwrap()@ == t.column_cells(factor_name(f))[i],
        }
}

/// `v` is the weighted reduction `op` of column `c`.
pub open spec fn is_weighted_of(t: &GroupTable, v: AggValue, op: WeightedOp, c: Seq<char>, by: AggregateBy) -> bool {
    match v {
        AggValue::Weighted(o, terms) => o == op && terms_match(t, c, by, op, terms@),
        _ => false,
    }
}

/// `v` is the text `s`.
pub open spec fn is_text(v: AggValue, s: Seq<char>) -> bool {
    match v {
        AggValue::Text(x) => x@ == s,
        _ => false,
    }
}

/// The cells of row `i` in the listed columns, joined by `fsep`.
pub open spec fn breakdown_row(t: &GroupTable, cols: Seq<Seq<char>>, fsep: Seq<char>, i: int) -> Seq<char> {
    join(cols.map_values(|c: Seq<char>| t.column_cells(c)[i]), fsep)
}

/// Every row's breakdown, joined by `rsep`.
pub open spec fn breakdown_text(t: &GroupTable, cols: Seq<Seq<char>>, fsep: Seq<char>, rsep: Seq<char>) -> Seq<char> {
    join(Seq::new(t.rows@.len(), |i: int| breakdown_row(t, cols, fsep, i)), rsep)
}

/// Every listed column is in the table.
pub open spec fn has_columns(t: &GroupTable, cols: Seq<String>) -> bool {
    forall|k: int| 0 <= k < cols.len() ==> t.has_column(#[trigger] cols[k]@)
}

/// All four share factor columns are in the table.
pub open spec fn has_factor_columns(t: &GroupTable) -> bool {
    &&& t.has_column(factor_name(FactorColumn::CountForward))
    &&& t.has_column(factor_name(FactorColumn::BiomassForward))
    &&& t.has_column(factor_name(FactorColumn::CountBackward))
    &&& t.has_column(factor_name(FactorColumn::BiomassBackward))
}

/// Whether `kind` can be applied to `t`: the columns it reads are there and,
/// for a weighted kind, every row's direction is known.
pub open spec fn applicable(t: &GroupTable, kind: AggKind) -> bool {
    match kind {
        AggKind::Custom { .. } => true,
        AggKind::Min { column, .. } => t.has_column(column@),
        AggKind::Max { column, .. } => t.has_column(column@),
        AggKind::Sum { columns } => has_columns(t, columns@),
        AggKind::Avg { columns } => has_columns(t, columns@),
        AggKind::WeightedSum { columns, .. } => t.directions_valid() && has_factor_columns(t) && has_columns(t, columns@),
        AggKind::WeightedAvg { column, .. } => t.directions_valid() && has_factor_columns(t) && t.has_column(column@),
        AggKind::Concat { columns, .. } => has_columns(t, columns@),
        AggKind::ContributionBreakdown { columns, .. } => has_columns(t, columns@),
    }
}

/// `outs` are the outputs of `kind` on `t`.
pub open spec fn outputs_of(t: &GroupTable, kind: AggKind, outs: Seq<AggResult>) -> bool {
    match kind {
        AggKind::Custom { handle } => outs.len() == 1 && outs[0].name@ == Seq::<char>::empty()
            && outs[0].value == AggValue::Custom(handle),
        AggKind::Min { column, alias } => outs.len() == 1 && outs[0].name@ == output_name(column@, alias, "_min"@)
            && is_reduction_of(t, outs[0].value, Reduction::Min, column@),
        AggKind::Max { column, alias } => outs.len() == 1 && outs[0].name@ == output_name(column@, alias, "_max"@)
            && is_reduction_of(t, outs[0].value, Reduction::Max, column@),
        AggKind::Sum { columns } => outs.len() == columns@.len() && forall|k: int| 0 <= k < outs.len() ==>
            (#[trigger] outs[k]).name@ == columns@[k]@ + "_sum"@ && is_reduction_of(t, outs[k].value, Reduction::Sum, columns@[k]@),
        AggKind::Avg { columns } => outs.len() == columns@.len() && forall|k: int| 0 <= k < outs.len() ==>
            (#[trigger] outs[k]).name@ == columns@[k]@ + "_avg"@ && is_reduction_of(t, outs[k].value, Reduction::Mean, columns@[k]@),
        AggKind::WeightedSum { columns, aggregate_by, .. } => outs.len() == columns@.len() && forall|k: int| 0 <= k < outs.len() ==>
            (#[trigger] outs[k]).name@ == columns@[k]@ && is_weighted_of(t, outs[k].value, WeightedOp::Sum, columns@[k]@, aggregate_by),
        AggKind::WeightedAvg { column, aggregate_by } => outs.len() == 1 && outs[0].name@ == column@ + "_weighted_avg"@
            && is_weighted_of(t, outs[0].value, WeightedOp::Avg, column@, aggregate_by),
        AggKind::Concat { columns, separator, unique } => outs.len() == columns@.len() && forall|k: int| 0 <= k < outs.len() ==>
            (#[trigger] outs[k]).name@ == columns@[k]@ && is_text(outs[k].value, concat_text(t.column_cells(columns@[k]@), separator@, unique)),
        AggKind::ContributionBreakdown { columns, field_separator, row_separator, alias } => outs.len() == 1
            && outs[0].name@ == (match alias { Some(a) => a@, None => "contribution_breakdown"@ })
            && is_text(outs[0].value, breakdown_text(t, id_views(columns@), field_separator@, row_separator@)),
    }
}

} // verus!

verus! {

/// `column` followed by `suffix`.
fn suffixed(column: &String, suffix: &str) -> (r: String)
    ensures
        r@ == column@ + suffix@,
{
    let mut r = column.clone();
    r.append(suffix);
    r
}

/// The name `alias` if given, else `column` followed by `suffix`.
fn name_or_alias(column: &String, alias: &Option<String>, suffix: &str) -> (r: String)
    ensures
        r@ == output_name(column@, *alias, suffix@),
{
    match alias {
        Some(a) => a.clone(),
        None => suffixed(column, suffix),
    }
}

/// The cells of `cells`, joined by `sep`, after dropping repeats when `unique`.
pub fn concat_values(cells: &Vec<String>, sep: &String, unique: bool) -> (r: String)
    ensures
        r@ == concat_text(id_views(cells@), sep@, unique),
{
    if unique {
        let kept = dedup_strings(cells);
        join_strings(&kept, sep)
    } else {
        join_strings(cells, sep)
    }
}

/// One reduction output per listed column, named by the column and `suffix`.
fn reduce_columns(t: &GroupTable, columns: &Vec<String>, suffix: &str, red: Reduction) -> (r: Result<Vec<AggResult>, SdtError>)
    requires
        t.wf(),
    ensures
        match r {
            Ok(outs) => has_columns(t, columns@) && outs@.len() == columns@.len() && forall|k: int|
                0 <= k < outs@.len() ==> (#[trigger] outs@[k]).name@ == columns@[k]@ + suffix@
                    && is_reduction_of(t, outs@[k].value, red, columns@[k]@),
            Err(e) => !has_columns(t, columns@) && e is ColumnNotFound,
        },
{
    let mut outs: Vec<AggResult> = Vec::new();
    let mut k: usize = 0;
    while k < columns.len()
        invariant
            t.wf(),
            k <= columns@.len(),
            outs@.len() == k,
            forall|j: int| 0 <= j < k ==> t.has_column(#[trigger] columns@[j]@),
            forall|j: int|
                0 <= j < k ==> (#[trigger] outs@[j]).name@ == columns@[j]@ + suffix@
                    && is_reduction_of(t, outs@[j].value, red, columns@[j]@),
        decreases columns@.len() - k,
    {
        let cells = match t.column_values(&columns[k]) {
            Ok(v) => v,
            Err(e) => {
                return Err(e);
            },
        };
        outs.push(AggResult { name: suffixed(&columns[k], suffix), value: AggValue::Reduce(red, cells) });
        k += 1;
    }
    Ok(outs)
}

/// The four share factor columns of a group, each as its cells.
struct FactorCells {
    count_forward: Vec<String>,
    biomass_forward: Vec<String>,
    count_backward: Vec<String>,
    biomass_backward: Vec<String>,
}

impl FactorCells {
    spec fn cells(&self, f: FactorColumn) -> Seq<String> {
        match f {
            FactorColumn::CountForward => self.count_forward@,
            FactorColumn::BiomassForward => self.biomass_forward@,
            FactorColumn::CountBackward => self.count_backward@,
            FactorColumn::BiomassBackward => self.biomass_backward@,
        }
    }

    spec fn matches(&self, t: &GroupTable) -> bool {
        forall|f: FactorColumn| id_views(#[trigger] self.cells(f)) == t.column_cells(factor_name(f))
    }

    /// Reads the four factor columns of `t`.
    fn read(t: &GroupTable) -> (r: Result<FactorCells, SdtError>)
        requires
            t.wf(),
        ensures
            match r {
                Ok(fc) => has_factor_columns(t) && fc.matches(t),
                Err(e) => !has_factor_columns(t) && e is ColumnNotFound,
            },
    {
        let count_forward = match t.column_values(&factor_column_name(FactorColumn::CountForward)) {
            Ok(v) => v,
            Err(e) => {
                return Err(e);
            },
        };
        let biomass_forward = match t.column_values(&factor_column_name(FactorColumn::BiomassForward)) {
            Ok(v) => v,
            Err(e) => {
                return Err(e);
            },
        };
        let count_backward = match t.column_values(&factor_column_name(FactorColumn::CountBackward)) {
            Ok(v) => v,
            Err(e) => {
                return Err(e);
            },
        };
        let biomass_backward = match t.column_values(&factor_column_name(FactorColumn::BiomassBackward)) {
            Ok(v) => v,
            Err(e) => {
                return Err(e);
            },
        };
        let fc = FactorCells { count_forward, biomass_forward, count_backward, biomass_backward };
        proof {
            assert forall|f: FactorColumn| id_views(#[trigger] fc.cells(f)) == t.column_cells(factor_name(f)) by {
                match f {
                    FactorColumn::CountForward => {},
                    FactorColumn::BiomassForward => {},
                    FactorColumn::CountBackward => {},
                    FactorColumn::BiomassBackward => {},
                }
            }
        }
        Ok(fc)
    }

    /// The cell of factor `f` in row `i`.
    fn cell(&self, f: FactorColumn, i: usize) -> (r: String)
        requires
            i < self.cells(f).len(),
        ensures
            r@ == self.cells(f)[i as int]@,
    {
        match f {
            FactorColumn::CountForward => self.count_forward[i].clone(),
            FactorColumn::BiomassForward => self.biomass_forward[i].clone(),
            FactorColumn::CountBackward => self.count_backward[i].clone(),
            FactorColumn::BiomassBackward => self.biomass_backward[i].clone(),
        }
    }
}

/// Each row's cell of the value column, with its weight under `op`.
fn weighted_terms(
    t: &GroupTable,
    column: &String,
    ds: &Vec<Direction>,
    fc: &FactorCells,
    by: AggregateBy,
    op: WeightedOp,
) -> (r: Result<Vec<WeightedTerm>, SdtError>)
    requires
        t.wf(),
        t.directions_valid(),
        ds@.len() == t.rows@.len(),
        forall|i: int| 0 <= i < ds@.len() ==> #[trigger] ds@[i] == t.row_direction(i),
        fc.matches(t),
    ensures
        match r {
            Ok(terms) => t.has_column(column@) && terms_match(t, column@, by, op, terms@),
            Err(e) => !t.has_column(column@) && e is ColumnNotFound,
        },
{
    let values = match t.column_values(column) {
        Ok(v) => v,
        Err(e) => {
            return Err(e);
        },
    };
    let mut terms: Vec<WeightedTerm> = Vec::new();
    let mut i: usize = 0;
    proof {
        assert(id_views(values@).len() == values@.len());
    }
    while i < values.len()
        invariant
            t.wf(),
            fc.matches(t),
            id_views(values@) == t.column_cells(column@),
            values@.len() == t.rows@.len(),
            ds@.len() == t.rows@.len(),
            forall|i: int| 0 <= i < ds@.len() ==> #[trigger] ds@[i] == t.row_direction(i),
            i <= values@.len(),
            terms@.len() == i,
            forall|j: int|
                0 <= j < i ==> (#[trigger] terms@[j]).value@ == t.column_cells(column@)[j] && match row_weight(t, j, by, op) {
                    Weight::One => terms@[j].weight.is_none(),
                    Weight::Factor(f) => terms@[j].weight.is_some() && terms@[j].weight.unwrap()@ == t.column_cells(factor_name(f))[j],
                },
        decreases values@.len() - i,
    {
        let w = match op {
            WeightedOp::Sum => sum_weight(ds[i], by),
            WeightedOp::Avg => avg_weight(ds[i], by),
        };
        let weight = match w {
            Weight::One => None,
            Weight::Factor(f) => {
                proof {
                    assert(id_views(fc.cells(f)) == t.column_cells(factor_name(f)));
                    assert(id_views(fc.cells(f)).len() == fc.cells(f).len());
                    assert(id_views(fc.cells(f))[i as int] == fc.cells(f)[i as int]@);
                }
                Some(fc.cell(f, i))
            },
        };
        proof {
            assert(id_views(values@)[i as int] == values@[i as int]@);
        }
        terms.push(WeightedTerm { value: values[i].clone(), weight });
        i += 1;
    }
    Ok(terms)
}

} // verus!

verus! {

/// One concat output per listed column, named by the column.
fn concat_columns(t: &GroupTable, columns: &Vec<String>, sep: &String, unique: bool) -> (r: Result<Vec<AggResult>, SdtError>)
    requires
        t.wf(),
    ensures
        match r {
            Ok(outs) => has_columns(t, columns@) && outs@.len() == columns@.len() && forall|k: int|
                0 <= k < outs@.len() ==> (#[trigger] outs@[k]).name@ == columns@[k]@ && is_text(
                    outs@[k].value,
                    concat_text(t.column_cells(columns@[k]@), sep@, unique),
                ),
            Err(e) => !has_columns(t, columns@) && e is ColumnNotFound,
        },
{
    let mut outs: Vec<AggResult> = Vec::new();
    let mut k: usize = 0;
    while k < columns.len()
        invariant
            t.wf(),
            k <= columns@.len(),
            outs@.len() == k,
            forall|j: int| 0 <= j < k ==> t.has_column(#[trigger] columns@[j]@),
            forall|j: int|
                0 <= j < k ==> (#[trigger] outs@[j]).name@ == columns@[j]@ && is_text(
                    outs@[j].value,
                    concat_text(t.column_cells(columns@[j]@), sep@, unique),
                ),
        decreases columns@.len() - k,
    {
        let cells = match t.column_values(&columns[k]) {
            Ok(v) => v,
            Err(e) => {
                return Err(e);
            },
        };
        let text = concat_values(&cells, sep, unique);
        outs.push(AggResult { name: columns[k].clone(), value: AggValue::Text(text) });
        k += 1;
    }
    Ok(outs)
}

/// One weighted-sum output per listed column, named by the column.
fn weighted_sum_columns(t: &GroupTable, columns: &Vec<String>, by: AggregateBy) -> (r: Result<Vec<AggResult>, SdtError>)
    requires
        t.wf(),
    ensures
        match r {
            Ok(outs) => t.directions_valid() && has_factor_columns(t) && has_columns(t, columns@)
                && outs@.len() == columns@.len() && forall|k: int|
                0 <= k < outs@.len() ==> (#[trigger] outs@[k]).name@ == columns@[k]@ && is_weighted_of(
                    t,
                    outs@[k].value,
                    WeightedOp::Sum,
                    columns@[k]@,
                    by,
                ),
            Err(e) => !(t.directions_valid() && has_factor_columns(t) && has_columns(t, columns@))
                && (e is ColumnNotFound || e is UnknownDirection),
        },
{
    let ds = match t.row_directions() {
        Ok(ds) => ds,
        Err(e) => {
            return Err(e);
        },
    };
    let fc = match FactorCells::read(t) {
        Ok(fc) => fc,
        Err(e) => {
            return Err(e);
        },
    };
    let mut outs: Vec<AggResult> = Vec::new();
    let mut k: usize = 0;
    while k < columns.len()
        invariant
            t.wf(),
            t.directions_valid(),
            has_factor_columns(t),
            fc.matches(t),
            ds@.len() == t.rows@.len(),
            forall|i: int| 0 <= i < ds@.len() ==> #[trigger] ds@[i] == t.row_direction(i),
            k <= columns@.len(),
            outs@.len() == k,
            forall|j: int| 0 <= j < k ==> t.has_column(#[trigger] columns@[j]@),
            forall|j: int|
                0 <= j < k ==> (#[trigger] outs@[j]).name@ == columns@[j]@ && is_weighted_of(
                    t,
                    outs@[j].value,
                    WeightedOp::Sum,
                    columns@[j]@,
                    by,
                ),
        decreases columns@.len() - k,
    {
        let terms = match weighted_terms(t, &columns[k], &ds, &fc, by, WeightedOp::Sum) {
            Ok(v) => v,
            Err(e) => {
                return Err(e);
            },
        };
        outs.push(AggResult { name: columns[k].clone(), value: AggValue::Weighted(WeightedOp::Sum, terms) });
        k += 1;
    }
    Ok(outs)
}

/// The weighted-average output of one column.
fn weighted_avg_column(t: &GroupTable, column: &String, by: AggregateBy) -> (r: Result<AggResult, SdtError>)
    requires
        t.wf(),
    ensures
        match r {
            Ok(out) => t.directions_valid() && has_factor_columns(t) && t.has_column(column@)
                && out.name@ == column@ + "_weighted_avg"@ && is_weighted_of(t, out.value, WeightedOp::Avg, column@, by),
            Err(e) => !(t.directions_valid() && has_factor_columns(t) && t.has_column(column@))
                && (e is ColumnNotFound || e is UnknownDirection),
        },
{
    let ds = match t.row_directions() {
        Ok(ds) => ds,
        Err(e) => {
            return Err(e);
        },
    };
    let fc = match FactorCells::read(t) {
        Ok(fc) => fc,
        Err(e) => {
            return Err(e);
        },
    };
    let terms = match weighted_terms(t, column, &ds, &fc, by, WeightedOp::Avg) {
        Ok(v) => v,
        Err(e) => {
            return Err(e);
        },
    };
    Ok(AggResult { name: suffixed(column, "_weighted_avg"), value: AggValue::Weighted(WeightedOp::Avg, terms) })
}

/// The contribution breakdown: each row's cells of the listed columns joined
/// by `fsep`, and the rows joined by `rsep`.
fn breakdown(t: &GroupTable, columns: &Vec<String>, fsep: &String, rsep: &String) -> (r: Result<String, SdtError>)
    requires
        t.wf(),
    ensures
        match r {
            Ok(s) => has_columns(t, columns@) && s@ == breakdown_text(t, id_views(columns@), fsep@, rsep@),
            Err(e) => !has_columns(t, columns@) && e is ColumnNotFound,
        },
{
    let mut cols: Vec<Vec<String>> = Vec::new();
    let mut k: usize = 0;
    while k < columns.len()
        invariant
            t.wf(),
            k <= columns@.len(),
            cols@.len() == k,
            forall|j: int| 0 <= j < k ==> t.has_column(#[trigger] columns@[j]@),
            forall|j: int| 0 <= j < k ==> id_views((#[trigger] cols@[j])@) == t.column_cells(columns@[j]@),
        decreases columns@.len() - k,
    {
        let cells = match t.column_values(&columns[k]) {
            Ok(v) => v,
            Err(e) => {
                return Err(e);
            },
        };
        cols.push(cells);
        k += 1;
    }
    let ghost cv = id_views(columns@);
    let ghost rows_spec = Seq::new(t.rows@.len(), |i: int| breakdown_row(t, cv, fsep@, i));
    let mut parts: Vec<String> = Vec::new();
    let mut i: usize = 0;
    while i < t.rows.len()
        invariant
            t.wf(),
            cv == id_views(columns@),
            cols@.len() == columns@.len(),
            forall|j: int| 0 <= j < cols@.len() ==> id_views((#[trigger] cols@[j])@) == t.column_cells(columns@[j]@),
            rows_spec == Seq::new(t.rows@.len(), |i: int| breakdown_row(t, cv, fsep@, i)),
            i <= t.rows@.len(),
            id_views(parts@) == rows_spec.subrange(0, i as int),
        decreases t.rows@.len() - i,
    {
        let mut fields: Vec<String> = Vec::new();
        let mut j: usize = 0;
        while j < cols.len()
            invariant
                t.wf(),
                i < t.rows@.len(),
                cols@.len() == columns@.len(),
                forall|j: int| 0 <= j < cols@.len() ==> id_views((#[trigger] cols@[j])@) == t.column_cells(columns@[j]@),
                j <= cols@.len(),
                id_views(fields@) == id_views(columns@).map_values(|c: Seq<char>| t.column_cells(c)[i as int]).subrange(0, j as int),
            decreases cols@.len() - j,
        {
            proof {
                assert(id_views(cols@[j as int]@) == t.column_cells(columns@[j as int]@));
                assert(id_views(cols@[j as int]@).len() == cols@[j as int]@.len());
                assert(t.column_cells(columns@[j as int]@).len() == t.rows@.len());
                assert(id_views(cols@[j as int]@)[i as int] == cols@[j as int]@[i as int]@);
            }
            let ghost f0 = fields@;
            fields.push(cols[j][i].clone());
            proof {
                assert(id_views(fields@) =~= id_views(f0).push(cols@[j as int]@[i as int]@));
                assert(id_views(fields@) =~= id_views(columns@).map_values(|c: Seq<char>| t.column_cells(c)[i as int]).subrange(0, j + 1));
            }
            j += 1;
        }
        let line = join_strings(&fields, fsep);
        proof {
            assert(id_views(columns@).map_values(|c: Seq<char>| t.column_cells(c)[i as int]).subrange(0, j as int)
                =~= id_views(columns@).map_values(|c: Seq<char>| t.column_cells(c)[i as int]));
            assert(line@ == breakdown_row(t, cv, fsep@, i as int));
        }
        let ghost p0 = id_views(parts@);
        parts.push(line);
        proof {
            assert(id_views(parts@) =~= p0.push(line@));
            assert(id_views(parts@) =~= rows_spec.subrange(0, i + 1));
        }
        i += 1;
    }
    let s = join_strings(&parts, rsep);
    proof {
        assert(rows_spec.subrange(0, i as int) =~= rows_spec);
        assert forall|j: int| 0 <= j < columns@.len() implies t.has_column(#[trigger] columns@[j]@) by {
        }
    }
    Ok(s)
}

} // verus!

verus! {

/// `outs` are the outputs of each aggregation of `aggs` on `t`, in order.
pub open spec fn aggregation_outputs(t: &GroupTable, aggs: Seq<Aggregation>, outs: Seq<AggResult>) -> bool {
    exists|parts: Seq<Seq<AggResult>>|
        #[trigger] parts.len() == aggs.len() && outs == parts.flatten() && forall|k: int|
            0 <= k < parts.len() ==> outputs_of(t, aggs[k].kind, #[trigger] parts[k])
}

/// The outputs of one aggregation on one group.
fn apply_one(t: &GroupTable, agg: &Aggregation) -> (r: Result<Vec<AggResult>, SdtError>)
    requires
        t.wf(),
    ensures
        match r {
            Ok(outs) => applicable(t, agg.kind) && outputs_of(t, agg.kind, outs@),
            Err(e) => !applicable(t, agg.kind) && (e is ColumnNotFound || e is UnknownDirection),
        },
{
    let mut outs: Vec<AggResult> = Vec::new();
    match &agg.kind {
        AggKind::Custom { handle } => {
            outs.push(AggResult { name: String::new(), value: AggValue::Custom(*handle) });
        },
        AggKind::Min { column, alias } => {
            let cells = match t.column_values(column) {
                Ok(v) => v,
                Err(e) => {
                    return Err(e);
                },
            };
            outs.push(AggResult { name: name_or_alias(column, alias, "_min"), value: AggValue::Reduce(Reduction::Min, cells) });
        },
        AggKind::Max { column, alias } => {
            let cells = match t.column_values(column) {
                Ok(v) => v,
                Err(e) => {
                    return Err(e);
                },
            };
            outs.push(AggResult { name: name_or_alias(column, alias, "_max"), value: AggValue::Reduce(Reduction::Max, cells) });
        },
        AggKind::Sum { columns } => {
            return reduce_columns(t, columns, "_sum", Reduction::Sum);
        },
        AggKind::Avg { columns } => {
            return reduce_columns(t, columns, "_avg", Reduction::Mean);
        },
        AggKind::WeightedSum { columns, aggregate_by, .. } => {
            return weighted_sum_columns(t, columns, *aggregate_by);
        },
        AggKind::WeightedAvg { column, aggregate_by } => {
            match weighted_avg_column(t, column, *aggregate_by) {
                Ok(out) => outs.push(out),
                Err(e) => {
                    return Err(e);
                },
            }
        },
        AggKind::Concat { columns, separator, unique } => {
            return concat_columns(t, columns, separator, *unique);
        },
        AggKind::ContributionBreakdown { columns, field_separator, row_separator, alias } => {
            let text = match breakdown(t, columns, field_separator, row_separator) {
                Ok(s) => s,
                Err(e) => {
                    return Err(e);
                },
            };
            let name = match alias {
                Some(a) => a.clone(),
                None => String::from_str("contribution_breakdown"),
            };
            outs.push(AggResult { name, value: AggValue::Text(text) });
        },
    }
    Ok(outs)
}

/// Applies each aggregation in turn to one group. The outputs are those of
/// each aggregation, in order; the call fails as soon as one cannot be applied.
pub fn apply_builtin_aggregations(group: &GroupTable, aggregations: &Vec<Aggregation>) -> (r: Result<
    Vec<AggResult>,
    SdtError,
>)
    requires
        group.wf(),
    ensures
        r.is_ok() <==> forall|k: int| 0 <= k < aggregations@.len() ==> applicable(group, #[trigger] aggregations@[k].kind),
        match r {
            Ok(outs) => aggregation_outputs(group, aggregations@, outs@),
            Err(e) => e is ColumnNotFound || e is UnknownDirection,
        },
{
    let mut outs: Vec<AggResult> = Vec::new();
    let ghost mut parts: Seq<Seq<AggResult>> = Seq::empty();
    let mut k: usize = 0;
    proof {
        assert(outs@ =~= parts.flatten());
    }
    while k < aggregations.len()
        invariant
            group.wf(),
            k <= aggregations@.len(),
            parts.len() == k,
            outs@ == parts.flatten(),
            forall|j: int| 0 <= j < k ==> applicable(group, #[trigger] aggregations@[j].kind),
            forall|j: int| 0 <= j < k ==> outputs_of(group, aggregations@[j].kind, #[trigger] parts[j]),
        decreases aggregations@.len() - k,
    {
        let mut more = match apply_one(group, &aggregations[k]) {
            Ok(v) => v,
            Err(e) => {
                return Err(e);
            },
        };
        let ghost mv = more@;
        let ghost out0 = outs@;
        outs.append(&mut more);
        proof {
            let parts0 = parts;
            vstd::seq_lib::lemma_flatten_concat(parts, seq![mv]);
            assert(seq![mv].flatten() =~= mv) by {
                reveal_with_fuel(Seq::flatten, 2);
                assert(seq![mv].drop_first() =~= Seq::<Seq<AggResult>>::empty());
            }
            parts = parts.push(mv);
            assert(parts =~= parts0 + seq![mv]);
            assert(outs@ =~= parts.flatten());
        }
        k += 1;
    }
    proof {
        assert(parts.len() == aggregations@.len() && outs@ == parts.flatten());
    }
    Ok(outs)
}

} // verus!

verus! {

/// Concat with dedup is idempotent: on values that are already distinct it
/// gives the plain concat, and deduplicating values that were deduplicated
/// before gives the same text.
pub proof fn lemma_concat_unique_idempotent(cells: Seq<Seq<char>>, sep: Seq<char>)
    ensures
        cells.no_duplicates() ==> concat_text(cells, sep, true) == concat_text(cells, sep, false),
        concat_text(dedup(cells), sep, true) == concat_text(cells, sep, true),
{
    if cells.no_duplicates() {
        crate::text::lemma_dedup_of_distinct(cells);
    }
    crate::text::lemma_dedup_idempotent(cells);
}

/// A row whose direction is none of the three names makes every weighted
/// aggregation inapplicable, so the call that applies it fails.
pub proof fn lemma_unknown_direction_fails(t: &GroupTable, aggs: Seq<Aggregation>, k: int, i: int)
    requires
        t.wf(),
        0 <= k < aggs.len(),
        aggs[k].kind is WeightedSum || aggs[k].kind is WeightedAvg,
        0 <= i < t.rows@.len(),
        direction_named(t.column_cells(direction_column_name())[i]).is_none(),
    ensures
        !applicable(t, aggs[k].kind),
        !(forall|j: int| 0 <= j < aggs.len() ==> applicable(t, #[trigger] aggs[j].kind)),
{
    assert(!t.directions_valid());
}

/// The aggregation dimension that a text names: `count` or `biomass`.
pub open spec fn aggregate_by_named(s: Seq<char>) -> Option<AggregateBy> {
    if s == "count"@ {
        Some(AggregateBy::Count)
    } else if s == "biomass"@ {
        Some(AggregateBy::Biomass)
    } else {
        None
    }
}

/// Reads an aggregation dimension; any text but `count` and `biomass` is refused.
pub fn parse_aggregate_by(s: &String) -> (r: Result<AggregateBy, SdtError>)
    ensures
        match r {
            Ok(by) => aggregate_by_named(s@) == Some(by),
            Err(e) => aggregate_by_named(s@).is_none() && e is Validation,
        },
{
    let count = String::from_str("count");
    let biomass = String::from_str("biomass");
    if *s == count {
        Ok(AggregateBy::Count)
    } else if *s == biomass {
        Ok(AggregateBy::Biomass)
    } else {
        let mut msg = String::from_str("invalid aggregate_by, expected count or biomass: ");
        msg.append(s.as_str());
        Err(SdtError::Validation(msg))
    }
}

impl Aggregation {
    /// Hands each group to the caller's callable number `handle`.
    pub fn custom(handle: usize) -> (r: Self)
        ensures
            r.kind == (AggKind::Custom { handle }),
    {
        Aggregation { kind: AggKind::Custom { handle } }
    }

    /// The smallest value of `column`, named `alias` or `{column}_min`.
    pub fn min(column: String, alias: Option<String>) -> (r: Self)
        ensures
            r.kind == (AggKind::Min { column, alias }),
    {
        Aggregation { kind: AggKind::Min { column, alias } }
    }

    /// The largest value of `column`, named `alias` or `{column}_max`.
    pub fn max(column: String, alias: Option<String>) -> (r: Self)
        ensures
            r.kind == (AggKind::Max { column, alias }),
    {
        Aggregation { kind: AggKind::Max { column, alias } }
    }

    /// The sum of each listed column, named `{column}_sum`.
    pub fn sum(columns: Vec<String>) -> (r: Self)
        ensures
            r.kind == (AggKind::Sum { columns }),
    {
        Aggregation { kind: AggKind::Sum { columns } }
    }

    /// The mean of each listed column, named `{column}_avg`.
    pub fn avg(columns: Vec<String>) -> (r: Self)
        ensures
            r.kind == (AggKind::Avg { columns }),
    {
        Aggregation { kind: AggKind::Avg { columns } }
    }

    /// The direction-aware weighted sum of each listed column, by `count` or
    /// `biomass`; any other dimension is refused.
    pub fn weighted_sum(columns: Vec<String>, aggregate_by: String, include_calculation: bool) -> (r: Result<Self, SdtError>)
        ensures
            match r {
                Ok(a) => aggregate_by_named(aggregate_by@) is Some && a.kind == (AggKind::WeightedSum {
                    columns,
                    aggregate_by: aggregate_by_named(aggregate_by@).unwrap(),
                    include_calculation,
                }),
                Err(e) => aggregate_by_named(aggregate_by@) is None && e is Validation,
            },
    {
        let by = match parse_aggregate_by(&aggregate_by) {
            Ok(by) => by,
            Err(e) => {
                return Err(e);
            },
        };
        Ok(Aggregation { kind: AggKind::WeightedSum { columns, aggregate_by: by, include_calculation } })
    }

    /// The direction-aware weighted average of `column`, by `count` or
    /// `biomass`; any other dimension is refused.
    pub fn weighted_avg(column: String, aggregate_by: String) -> (r: Result<Self, SdtError>)
        ensures
            match r {
                Ok(a) => aggregate_by_named(aggregate_by@) is Some && a.kind == (AggKind::WeightedAvg {
                    column,
                    aggregate_by: aggregate_by_named(aggregate_by@).unwrap(),
                }),
                Err(e) => aggregate_by_named(aggregate_by@) is None && e is Validation,
            },
    {
        let by = match parse_aggregate_by(&aggregate_by) {
            Ok(by) => by,
            Err(e) => {
                return Err(e);
            },
        };
        Ok(Aggregation { kind: AggKind::WeightedAvg { column, aggregate_by: by } })
    }

    /// The values of each listed column joined by `separator`, each value once
    /// when `unique`.
    pub fn concat(columns: Vec<String>, separator: String, unique: bool) -> (r: Self)
        ensures
            r.kind == (AggKind::Concat { columns, separator, unique }),
    {
        Aggregation { kind: AggKind::Concat { columns, separator, unique } }
    }

    /// Each row's values of the listed columns joined by `field_separator`,
    /// the rows joined by `row_separator`, named `alias` or
    /// `contribution_breakdown`.
    pub fn contribution_breakdown(
        columns: Vec<String>,
        field_separator: String,
        row_separator: String,
        alias: Option<String>,
    ) -> (r: Self)
        ensures
            r.kind == (AggKind::ContributionBreakdown { columns, field_separator, row_separator, alias }),
    {
        Aggregation { kind: AggKind::ContributionBreakdown { columns, field_separator, row_separator, alias } }
    }
}

} // verus!
