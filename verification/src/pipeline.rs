//! The staged rendering pipeline: a dependency-ordered state machine over
//! the table, transforms, highlight selection, density mesh and output
//! buffer. Editing a parameter demotes the recorded stage to the earliest
//! stage it affects; running advances one stage per step until the buffer is
//! presented, so an edit is visible within one full run and nothing stale is
//! ever presented.

use vstd::prelude::*;
use bitvector::BitVector;
use crate::bitset::{bv_capacity, bv_cap, bv_contains, bv_insert, bv_new, bv_set, bv_to_vec,
    word_rounded};
use crate::fixed::{SCALE, VAL_MAX, divt, fits_val, lemma_divt_shrinks, muldiv};
use crate::mesh::{
    HighlightType, Mesh, Parameters, lemma_weight_cap, points_ok, total_weight, BOUND_MAX,
};
use crate::pointdata::{PointData, ROWS_MAX, parse_cell};
use crate::transform::{ColumnTransform, TransformationType};
verus! {

/// The pipeline stages, in dependency order: fresh input, row view built,
/// mesh accumulated, mesh post-processed, output buffer presented.
#[derive(Debug, Clone, Copy, PartialEq, Eq, Structural)]
pub enum Stage {
    Stage0NewData,
    Stage1XYI,
    Stage2Mesh,
    Stage3ProcessedMesh,
    Stage4Texture,
}

/// The position of a stage in the dependency order.
pub open spec fn stage_rank(s: Stage) -> int {
    match s {
        Stage::Stage0NewData => 0,
        Stage::Stage1XYI => 1,
        Stage::Stage2Mesh => 2,
        Stage::Stage3ProcessedMesh => 3,
        Stage::Stage4Texture => 4,
    }
}

/// The earlier of two stages: what demotion moves the pipeline to.
pub open spec fn spec_down(a: Stage, b: Stage) -> Stage {
    if stage_rank(b) < stage_rank(a) {
        b
    } else {
        a
    }
}

impl Stage {
    /// Demote to the earlier of this stage and the target: a meet, never an
    /// advance.
    pub fn down(self, stage: Stage) -> (r: Stage)
        ensures
            r == spec_down(self, stage),
            stage_rank(r) == vstd::math::min(stage_rank(self), stage_rank(stage)),
    {
        match self {
            Stage::Stage0NewData => self,
            Stage::Stage1XYI => match stage {
                Stage::Stage0NewData => stage,
                _ => self,
            },
            Stage::Stage2Mesh => match stage {
                Stage::Stage0NewData => stage,
                Stage::Stage1XYI => stage,
                _ => self,
            },
            Stage::Stage3ProcessedMesh => match stage {
                Stage::Stage0NewData => stage,
                Stage::Stage1XYI => stage,
                Stage::Stage2Mesh => stage,
                _ => self,
            },
            Stage::Stage4Texture => stage,
        }
    }
}

/// Demotion is a meet: demoting by two targets lands on the earliest of the
/// three stages, whatever the order of the two demotions.
pub proof fn lemma_demotion_meet(s: Stage, a: Stage, b: Stage)
    ensures
        spec_down(spec_down(s, a), b) == spec_down(spec_down(s, b), a),
        stage_rank(spec_down(spec_down(s, a), b)) == vstd::math::min(
            stage_rank(s),
            vstd::math::min(stage_rank(a), stage_rank(b)),
        ),
        spec_down(spec_down(s, a), a) == spec_down(s, a),
{
}

/// Row-major tables of text cells.
pub trait SimpleTable {
    /// Columns become rows: entry (i, j) of the result is entry (j, i) of a
    /// rectangular table.
    fn transpose(&self) -> (r: Vec<Vec<String>>);

    /// Append a row of empty cells matching the first row's width.
    fn add_empty_row(&mut self);
}

impl SimpleTable for Vec<Vec<String>> {
    fn transpose(&self) -> (r: Vec<Vec<String>>)
        ensures
            self@.len() > 0 ==> r@.len() == self@[0]@.len(),
            self@.len() == 0 ==> r@.len() == 0,
            forall|i: int, j: int| #![trigger r@[i]@[j]]
                0 <= i < r@.len() && 0 <= j < self@.len() && i < self@[j]@.len() ==> r@[i]@[j]@
                    == self@[j]@[i]@,
            forall|i: int| 0 <= i < r@.len() ==> (#[trigger] r@[i])@.len() == self@.len(),
    {
        let mut table: Vec<Vec<String>> = Vec::new();
        if self.len() > 0 {
            let width = self[0].len();
            let mut i: usize = 0;
            while i < width
                invariant
                    i <= width,
                    self@.len() > 0,
                    width == self@[0]@.len(),
                    table@.len() == i,
                    forall|a: int, j: int| #![trigger table@[a]@[j]]
                        0 <= a < i && 0 <= j < self@.len() && a < self@[j]@.len() ==> table@[a]@[j]@
                            == self@[j]@[a]@,
                    forall|a: int| 0 <= a < i ==> (#[trigger] table@[a])@.len() == self@.len(),
                decreases width - i,
            {
                let mut row: Vec<String> = Vec::new();
                let mut j: usize = 0;
                while j < self.len()
                    invariant
                        j <= self@.len(),
                        i < width,
                        row@.len() == j,
                        forall|k: int| #![trigger row@[k]]
                            0 <= k < j && i < self@[k]@.len() ==> row@[k]@ == self@[k]@[i as int]@,
                    decreases self@.len() - j,
                {
                    let inner = &self[j];
                    if i < inner.len() {
                        row.push(inner[i].clone());
                    } else {
                        row.push(String::new());
                    }
                    j = j + 1;
                }
                table.push(row);
                i = i + 1;
            }
        }
        table
    }

    fn add_empty_row(&mut self)
        ensures
            old(self)@.len() > 0 ==> final(self)@.len() == old(self)@.len() + 1,
            old(self)@.len() == 0 ==> *final(self) == *old(self),
    {
        if self.len() > 0 {
            let width = self[0].len();
            let mut row: Vec<String> = Vec::new();
            let mut k: usize = 0;
            while k < width
                invariant
                    k <= width,
                decreases width - k,
            {
                row.push(String::new());
                k = k + 1;
            }
            self.push(row);
        }
    }
}

/// What a numeric cell of row `i` of the named column reads: the stored
/// value of a numeric column, the parsed value of a text column, nothing for
/// an unresolvable column.
pub open spec fn source_value(data: PointData, col: Seq<char>, i: int) -> Option<i64> {
    if data.has_data(col) {
        Some(data.data_at(col)[i])
    } else if data.has_aux(col) {
        parse_cell(data.aux_at(col)[i]@)
    } else {
        None
    }
}

/// The staged rendering pipeline.
pub struct Pipeline {
    pub point_data: PointData,
    pub data_columns: Vec<String>,
    pub aux_columns: Vec<String>,
    pub parameters: Parameters,
    pub mesh: Mesh,
    pub unit_weights: Vec<i64>,
    pub highlights: BitVector,
    pub xyi: Vec<(i64, i64, i64, usize, bool)>,
    pub txtype: TransformationType,
    pub tytype: TransformationType,
    pub tx: ColumnTransform,
    pub ty: ColumnTransform,
    pub zoom: i64,
    pub aspect_ratio: i64,
    pub ox: i64,
    pub oy: i64,
    pub stage: Stage,
}

impl Pipeline {
    /// Bounds the pipeline always satisfies.
    pub open spec fn wf(self) -> bool {
        &&& self.point_data.wf()
        &&& self.parameters.wf()
        &&& self.mesh.wf()
        &&& self.unit_weights@.len() == self.point_data.length
        &&& forall|k: int| 0 <= k < self.unit_weights@.len() ==> #[trigger] self.unit_weights@[k]
            == SCALE
        &&& self.tx.wf()
        &&& self.ty.wf()
        &&& points_ok(self.xyi@)
        &&& self.xyi@.len() <= ROWS_MAX
        &&& 100_000 <= self.zoom <= VAL_MAX
        &&& 100_000 <= self.aspect_ratio <= VAL_MAX
        &&& fits_val(self.ox)
        &&& fits_val(self.oy)
    }

    pub fn new() -> (r: Pipeline)
        ensures
            r.wf(),
            r.stage == Stage::Stage0NewData,
            r.point_data.length == 0,
            r.zoom == SCALE && r.aspect_ratio == SCALE,
            r.ox == HALF_UNIT && r.oy == HALF_UNIT,
            r.txtype == TransformationType::Linear,
            r.tytype == TransformationType::Linear,
    {
        Pipeline {
            point_data: PointData::new(),
            data_columns: Vec::new(),
            aux_columns: Vec::new(),
            parameters: Parameters::new(),
            mesh: Mesh::new(),
            unit_weights: Vec::new(),
            highlights: bv_new(0),
            xyi: Vec::new(),
            txtype: TransformationType::Linear,
            tytype: TransformationType::Linear,
            tx: TransformationType::Linear.to_transform(),
            ty: TransformationType::Linear.to_transform(),
            zoom: SCALE,
            aspect_ratio: SCALE,
            ox: HALF_UNIT,
            oy: HALF_UNIT,
            stage: Stage::Stage0NewData,
        }
    }

    /// Take a freshly loaded table: reset the stage, list its numeric and
    /// text columns, pick the first two numeric columns as axes, and set up
    /// the default unit weights.
    pub fn load(&mut self, data: PointData)
        requires
            old(self).wf(),
            data.wf(),
        ensures
            final(self).wf(),
            final(self).stage == Stage::Stage0NewData,
            final(self).point_data == data,
            final(self).unit_weights@.len() == data.length,
            forall|j: int|
                0 <= j < data.length ==> #[trigger] final(self).unit_weights@[j] == SCALE,
            final(self).data_columns@ == data.data_names@,
            final(self).aux_columns@ == data.aux_names@ + data.data_names@,
            data.data_names@.len() >= 2 ==> final(self).parameters == (Parameters {
                xcolumn: data.data_names@[0],
                ycolumn: data.data_names@[1],
                ..old(self).parameters
            }),
            data.data_names@.len() < 2 ==> final(self).parameters == old(self).parameters,
    {
        self.point_data = data;
        self.stage = Stage::Stage0NewData;
        self.data_columns = clone_string_vec(&self.point_data.data_names);
        let mut aux = clone_string_vec(&self.point_data.aux_names);
        let more = clone_string_vec(&self.point_data.data_names);
        let mut k: usize = 0;
        while k < more.len()
            invariant
                k <= more@.len(),
                more@ == self.point_data.data_names@,
                aux@ == self.point_data.aux_names@ + more@.take(k as int),
            decreases more@.len() - k,
        {
            aux.push(more[k].clone());
            proof {
                assert(aux@ =~= self.point_data.aux_names@ + more@.take(k + 1));
            }
            k = k + 1;
        }
        proof {
            assert(aux@ =~= self.point_data.aux_names@ + self.point_data.data_names@);
        }
        self.aux_columns = aux;
        if self.point_data.data_names.len() >= 2 {
            self.parameters.xcolumn = self.point_data.data_names[0].clone();
            self.parameters.ycolumn = self.point_data.data_names[1].clone();
        }
        let n = self.point_data.len();
        let mut w: Vec<i64> = Vec::new();
        let mut i: usize = 0;
        while i < n
            invariant
                i <= n,
                w@.len() == i,
                forall|j: int| 0 <= j < i ==> #[trigger] w@[j] == SCALE,
            decreases n - i,
        {
            w.push(SCALE);
            i = i + 1;
        }
        self.unit_weights = w;
    }

    pub fn get_zoom(&self) -> (r: i64)
        ensures
            r == self.zoom,
    {
        self.zoom
    }

    /// Change the zoom factor, demoting to the row-view stage; values outside
    /// the admitted range are ignored.
    pub fn set_zoom(&mut self, zoom: i64)
        requires
            old(self).wf(),
        ensures
            final(self).wf(),
            100_000 <= zoom <= VAL_MAX && zoom != old(self).zoom ==> final(self).zoom == zoom
                && final(self).stage == spec_down(old(self).stage, Stage::Stage1XYI),
            !(100_000 <= zoom <= VAL_MAX) || zoom == old(self).zoom ==> *final(self) == *old(self),
    {
        if 100_000 <= zoom && zoom <= VAL_MAX && zoom != self.zoom {
            self.zoom = zoom;
            self.stage = self.stage.down(Stage::Stage1XYI);
        }
    }

    pub fn get_aspect_ratio(&self) -> (r: i64)
        ensures
            r == self.aspect_ratio,
    {
        self.aspect_ratio
    }

    /// Change the aspect ratio, demoting to the row-view stage; values
    /// outside the admitted range are ignored.
    pub fn set_aspect_ratio(&mut self, r: i64)
        requires
            old(self).wf(),
        ensures
            final(self).wf(),
            100_000 <= r <= VAL_MAX && r != old(self).aspect_ratio ==> final(self).aspect_ratio
                == r && final(self).stage == spec_down(old(self).stage, Stage::Stage1XYI),
            !(100_000 <= r <= VAL_MAX) || r == old(self).aspect_ratio ==> *final(self) == *old(self),
    {
        if 100_000 <= r && r <= VAL_MAX && r != self.aspect_ratio {
            self.aspect_ratio = r;
            self.stage = self.stage.down(Stage::Stage1XYI);
        }
    }

    pub fn offset_x(&self) -> (r: i64)
        ensures
            r == self.ox,
    {
        self.ox
    }

    /// Change the horizontal pan offset, demoting to the row-view stage.
    pub fn set_offset_x(&mut self, o: i64)
        requires
            old(self).wf(),
            fits_val(o),
        ensures
            final(self).wf(),
            o != old(self).ox ==> final(self).ox == o && final(self).stage == spec_down(
                old(self).stage,
                Stage::Stage1XYI,
            ),
            o == old(self).ox ==> *final(self) == *old(self),
    {
        if o != self.ox {
            self.ox = o;
            self.stage = self.stage.down(Stage::Stage1XYI);
        }
    }

    pub fn offset_y(&self) -> (r: i64)
        ensures
            r == self.oy,
    {
        self.oy
    }

    /// Change the vertical pan offset, demoting to the row-view stage.
    pub fn set_offset_y(&mut self, o: i64)
        requires
            old(self).wf(),
            fits_val(o),
        ensures
            final(self).wf(),
            o != old(self).oy ==> final(self).oy == o && final(self).stage == spec_down(
                old(self).stage,
                Stage::Stage1XYI,
            ),
            o == old(self).oy ==> *final(self) == *old(self),
    {
        if o != self.oy {
            self.oy = o;
            self.stage = self.stage.down(Stage::Stage1XYI);
        }
    }

    /// Pan by a view-relative step, demoting to the row-view stage; the
    /// offsets saturate at the admitted value range.
    pub fn relative_offset(&mut self, dx: i64, dy: i64)
        requires
            old(self).wf(),
            fits_val(dx),
            fits_val(dy),
        ensures
            final(self).wf(),
            final(self).stage == spec_down(old(self).stage, Stage::Stage1XYI),
    {
        proof {
            lemma_divt_shrinks((dx as int) * (self.aspect_ratio as int), self.zoom as int);
            lemma_divt_shrinks((dx as int) * SCALE, self.zoom as int);
            lemma_divt_shrinks((dy as int) * SCALE, self.zoom as int);
            lemma_divt_shrinks((dy as int) * (self.aspect_ratio as int), self.zoom as int);
            assert(-100_000_000_000_000_000_000 <= (dx as int) * (self.aspect_ratio as int)
                <= 100_000_000_000_000_000_000 && -100_000_000_000_000_000_000 <= (dy as int) * (
            self.aspect_ratio as int) <= 100_000_000_000_000_000_000) by (nonlinear_arith)
                requires
                    -VAL_MAX <= dx <= VAL_MAX,
                    -VAL_MAX <= dy <= VAL_MAX,
                    0 <= self.aspect_ratio <= VAL_MAX,
                    VAL_MAX == 10_000_000_000,
            ;
        }
        let sx: i128;
        let sy: i128;
        if self.aspect_ratio >= SCALE {
            sx = crate::fixed::muldiv_wide(dx, self.aspect_ratio, self.zoom);
            sy = crate::fixed::muldiv_wide(dy, SCALE, self.zoom);
        } else {
            sx = crate::fixed::muldiv_wide(dx, SCALE, self.zoom);
            let step = crate::fixed::muldiv_wide(dy, SCALE, self.zoom);
            proof {
                assert(-100_000_000_000_000_000_000_000_000_000_000_000 <= (step as int) * (
                SCALE as int) <= 100_000_000_000_000_000_000_000_000_000_000_000)
                    by (nonlinear_arith)
                    requires
                        -100_000_000_000_000_000_000_000_000 <= step as int
                            <= 100_000_000_000_000_000_000_000_000,
                        SCALE == 1_000_000,
                ;
            }
            let num: i128 = step * (SCALE as i128);
            sy = if num >= 0 {
                ((num as u128) / (self.aspect_ratio as u128)) as i128
            } else {
                -((((-num) as u128) / (self.aspect_ratio as u128)) as i128)
            };
        }
        self.ox = saturate_val((self.ox as i128) - sx);
        self.oy = saturate_val((self.oy as i128) - sy);
        self.stage = self.stage.down(Stage::Stage1XYI);
    }

    pub fn weight_column<'a>(&'a self) -> (r: &'a str)
        ensures
            r@ == self.parameters.weight_column@,
    {
        self.parameters.weight_column.as_str()
    }

    /// Change the weight column, resetting to the raw-input stage.
    pub fn set_weight_column(&mut self, column: String)
        requires
            old(self).wf(),
        ensures
            final(self).wf(),
            column@ != old(self).parameters.weight_column@ ==> final(self).parameters.weight_column == column && final(self).stage == Stage::Stage0NewData,
            column@ == old(self).parameters.weight_column@ ==> *final(self) == *old(self),
    {
        if !(self.parameters.weight_column == column) {
            self.parameters.weight_column = column;
            self.stage = Stage::Stage0NewData;
        }
    }

    /// Replace the highlight selection, resetting to the raw-input stage; a
    /// selection equal to the current one changes nothing.
    pub fn set_highlights(&mut self, new_highlights: BitVector)
        requires
            old(self).wf(),
        ensures
            final(self).wf(),
            (bv_cap(old(self).highlights) == bv_cap(new_highlights) && bv_set(
                old(self).highlights,
            ) =~= bv_set(new_highlights)) ==> *final(self) == *old(self),
            !(bv_cap(old(self).highlights) == bv_cap(new_highlights) && bv_set(
                old(self).highlights,
            ) =~= bv_set(new_highlights)) ==> final(self).highlights == new_highlights && final(self).stage == Stage::Stage0NewData && *final(self) == (Pipeline {
                highlights: final(self).highlights,
                stage: Stage::Stage0NewData,
                ..*old(self)
            }),
    {
        if bv_capacity(&self.highlights) == bv_capacity(&new_highlights) && crate::bitset::bv_eq(
            &self.highlights,
            &new_highlights,
        ) {
            return ;
        }
        self.highlights = new_highlights;
        self.stage = Stage::Stage0NewData;
    }

    pub fn highlight_type(&self) -> (r: HighlightType)
        ensures
            r == self.parameters.highlight_type,
    {
        self.parameters.highlight_type
    }

    /// Change the highlight rendering mode, demoting to the mesh stage.
    pub fn set_highlight_type(&mut self, value: HighlightType)
        requires
            old(self).wf(),
        ensures
            final(self).wf(),
            value != old(self).parameters.highlight_type ==> final(self).parameters.highlight_type
                == value && final(self).stage == spec_down(old(self).stage, Stage::Stage2Mesh),
            value == old(self).parameters.highlight_type ==> *final(self) == *old(self),
    {
        if value != self.parameters.highlight_type {
            self.parameters.highlight_type = value;
            self.stage = self.stage.down(Stage::Stage2Mesh);
        }
    }

    pub fn xcolumn<'a>(&'a self) -> (r: &'a str)
        ensures
            r@ == self.parameters.xcolumn@,
    {
        self.parameters.xcolumn.as_str()
    }

    /// Change the horizontal source column, resetting to the raw-input stage.
    pub fn set_xcolumn(&mut self, xcolumn: String)
        requires
            old(self).wf(),
        ensures
            final(self).wf(),
            xcolumn@ != old(self).parameters.xcolumn@ ==> final(self).parameters == (Parameters {
                xcolumn: xcolumn,
                xmin: 0,
                xmax: SCALE,
                ymin: 0,
                ymax: SCALE,
                ..old(self).parameters
            }) && final(self).stage == Stage::Stage0NewData && *final(self) == (Pipeline {
                parameters: final(self).parameters,
                zoom: SCALE,
                aspect_ratio: SCALE,
                ox: HALF_UNIT,
                oy: HALF_UNIT,
                stage: Stage::Stage0NewData,
                ..*old(self)
            }),
            xcolumn@ == old(self).parameters.xcolumn@ ==> *final(self) == *old(self),
    {
        if !(self.parameters.xcolumn == xcolumn) {
            self.parameters.xcolumn = xcolumn;
            self.zoom_all();
            self.stage = Stage::Stage0NewData;
        }
    }

    pub fn ycolumn<'a>(&'a self) -> (r: &'a str)
        ensures
            r@ == self.parameters.ycolumn@,
    {
        self.parameters.ycolumn.as_str()
    }

    /// Change the vertical source column, resetting to the raw-input stage.
    pub fn set_ycolumn(&mut self, ycolumn: String)
        requires
            old(self).wf(),
        ensures
            final(self).wf(),
            ycolumn@ != old(self).parameters.ycolumn@ ==> final(self).parameters == (Parameters {
                ycolumn: ycolumn,
                xmin: 0,
                xmax: SCALE,
                ymin: 0,
                ymax: SCALE,
                ..old(self).parameters
            }) && final(self).stage == Stage::Stage0NewData && *final(self) == (Pipeline {
                parameters: final(self).parameters,
                zoom: SCALE,
                aspect_ratio: SCALE,
                ox: HALF_UNIT,
                oy: HALF_UNIT,
                stage: Stage::Stage0NewData,
                ..*old(self)
            }),
            ycolumn@ == old(self).parameters.ycolumn@ ==> *final(self) == *old(self),
    {
        if !(self.parameters.ycolumn == ycolumn) {
            self.parameters.ycolumn = ycolumn;
            self.zoom_all();
            self.stage = Stage::Stage0NewData;
        }
    }

    pub fn tx_type(&self) -> (r: TransformationType)
        ensures
            r == self.txtype,
    {
        self.txtype
    }

    /// Change the horizontal transform kind, resetting to the raw-input
    /// stage.
    pub fn set_txtype(&mut self, txtype: TransformationType)
        requires
            old(self).wf(),
        ensures
            final(self).wf(),
            txtype != old(self).txtype ==> final(self).txtype == txtype && final(self).stage
                == Stage::Stage0NewData,
            txtype == old(self).txtype ==> *final(self) == *old(self),
    {
        if txtype != self.txtype {
            self.txtype = txtype;
            self.stage = Stage::Stage0NewData;
        }
    }

    pub fn ty_type(&self) -> (r: TransformationType)
        ensures
            r == self.tytype,
    {
        self.tytype
    }

    /// Change the vertical transform kind, resetting to the raw-input stage.
    pub fn set_tytype(&mut self, tytype: TransformationType)
        requires
            old(self).wf(),
        ensures
            final(self).wf(),
            tytype != old(self).tytype ==> final(self).tytype == tytype && final(self).stage
                == Stage::Stage0NewData,
            tytype == old(self).tytype ==> *final(self) == *old(self),
    {
        if tytype != self.tytype {
            self.tytype = tytype;
            self.stage = Stage::Stage0NewData;
        }
    }

    pub fn gaussian_points(&self) -> (r: bool)
        ensures
            r == self.parameters.gaussian_points,
    {
        self.parameters.gaussian_points
    }

    /// Toggle the spread-following kernel, demoting to the row-view stage.
    pub fn set_gaussian_points(&mut self, flag: bool)
        requires
            old(self).wf(),
        ensures
            final(self).wf(),
            flag != old(self).parameters.gaussian_points ==> final(self).parameters.gaussian_points
                == flag && final(self).stage == spec_down(old(self).stage, Stage::Stage1XYI),
            flag == old(self).parameters.gaussian_points ==> *final(self) == *old(self),
    {
        if flag != self.parameters.gaussian_points {
            self.stage = self.stage.down(Stage::Stage1XYI);
            self.parameters.gaussian_points = flag;
        }
    }

    pub fn point_sigma(&self) -> (r: i64)
        ensures
            r == self.parameters.point_sigma,
    {
        self.parameters.point_sigma
    }

    /// Change the kernel spread; demotes to the row-view stage only when the
    /// value changes and the spread-following kernel is on. Values outside the
    /// admitted range are ignored.
    pub fn set_point_sigma(&mut self, value: i64)
        requires
            old(self).wf(),
        ensures
            final(self).wf(),
            1 <= value <= VAL_MAX ==> final(self).parameters == (Parameters {
                point_sigma: value,
                ..old(self).parameters
            }) && final(self).stage == (if value != old(self).parameters.point_sigma && old(self).parameters.gaussian_points {
                spec_down(old(self).stage, Stage::Stage1XYI)
            } else {
                old(self).stage
            }) && *final(self) == (Pipeline {
                parameters: final(self).parameters,
                stage: final(self).stage,
                ..*old(self)
            }),
            !(1 <= value <= VAL_MAX) ==> *final(self) == *old(self),
    {
        if 1 <= value && value <= VAL_MAX {
            if value != self.parameters.point_sigma && self.parameters.gaussian_points {
                self.stage = self.stage.down(Stage::Stage1XYI);
            }
            self.parameters.point_sigma = value;
        }
    }

    pub fn density_multiplier(&self) -> (r: i64)
        ensures
            r == self.parameters.density_multiplier,
    {
        self.parameters.density_multiplier
    }

    /// Change the density multiplier, demoting to the mesh stage; values
    /// outside the admitted range are ignored.
    pub fn set_density_multiplier(&mut self, value: i64)
        requires
            old(self).wf(),
        ensures
            final(self).wf(),
            fits_val(value) && value != old(self).parameters.density_multiplier ==> final(self).parameters == (Parameters { density_multiplier: value, ..old(self).parameters })
                && final(self).stage == spec_down(old(self).stage, Stage::Stage2Mesh) && *final(self) == (Pipeline {
                parameters: final(self).parameters,
                stage: final(self).stage,
                ..*old(self)
            }),
            !(fits_val(value) && value != old(self).parameters.density_multiplier) ==> *final(self)
                == *old(self),
    {
        if -VAL_MAX <= value && value <= VAL_MAX && value != self.parameters.density_multiplier {
            self.stage = self.stage.down(Stage::Stage2Mesh);
            self.parameters.density_multiplier = value;
        }
    }

    pub fn contrast(&self) -> (r: i64)
        ensures
            r == self.parameters.contrast,
    {
        self.parameters.contrast
    }

    /// Change the contrast, demoting to the mesh stage; values outside the
    /// admitted range are ignored.
    pub fn set_contrast(&mut self, value: i64)
        requires
            old(self).wf(),
        ensures
            final(self).wf(),
            fits_val(value) && value != old(self).parameters.contrast ==> final(self).parameters
                == (Parameters { contrast: value, ..old(self).parameters }) && final(self).stage
                == spec_down(old(self).stage, Stage::Stage2Mesh) && *final(self) == (Pipeline {
                parameters: final(self).parameters,
                stage: final(self).stage,
                ..*old(self)
            }),
            !(fits_val(value) && value != old(self).parameters.contrast) ==> *final(self) == *old(self),
    {
        if -VAL_MAX <= value && value <= VAL_MAX && value != self.parameters.contrast {
            self.stage = self.stage.down(Stage::Stage2Mesh);
            self.parameters.contrast = value;
        }
    }

    /// Reset the view to the unit box, demoting to the row-view stage.
    pub fn zoom_all(&mut self)
        requires
            old(self).wf(),
        ensures
            final(self).wf(),
            final(self).parameters == (Parameters {
                xmin: 0,
                xmax: SCALE,
                ymin: 0,
                ymax: SCALE,
                ..old(self).parameters
            }),
            *final(self) == (Pipeline {
                parameters: final(self).parameters,
                zoom: SCALE,
                aspect_ratio: SCALE,
                ox: HALF_UNIT,
                oy: HALF_UNIT,
                stage: spec_down(old(self).stage, Stage::Stage1XYI),
                ..*old(self)
            }),
            final(self).zoom == SCALE && final(self).aspect_ratio == SCALE,
            final(self).ox == HALF_UNIT && final(self).oy == HALF_UNIT,
            final(self).stage == spec_down(old(self).stage, Stage::Stage1XYI),
    {
        self.parameters.xmin = 0;
        self.parameters.xmax = SCALE;
        self.parameters.ymin = 0;
        self.parameters.ymax = SCALE;
        self.zoom = SCALE;
        self.aspect_ratio = SCALE;
        self.ox = HALF_UNIT;
        self.oy = HALF_UNIT;
        self.stage = self.stage.down(Stage::Stage1XYI);
    }

    /// Narrow the displayed columns to the names the filter accepts.
    pub fn filter_headers(&mut self, filter: &crate::column_filter::ColumnFilter)
        requires
            old(self).wf(),
        ensures
            final(self).wf(),
            final(self).point_data.headers@.len() <= old(self).point_data.all_headers@.len(),
            final(self).point_data == (crate::pointdata::PointData {
                headers: final(self).point_data.headers,
                ..old(self).point_data
            }),
            *final(self) == (Pipeline { point_data: final(self).point_data, ..*old(self) }),
            crate::pointdata::views_of(final(self).point_data.headers@)
                == crate::pointdata::accepted_prefix(
                old(self).point_data.all_headers@,
                *filter,
                old(self).point_data.all_headers@.len() as int,
            ),
            forall|i: int| #![trigger final(self).point_data.headers@[i]]
                0 <= i < final(self).point_data.headers@.len() ==> crate::pointdata::header_selected(
                    old(self).point_data.all_headers@,
                    *filter,
                    final(self).point_data.headers@[i]@,
                ),
    {
        self.point_data.filter_headers(filter);
    }

    /// The view box: the pan offset centered in a window whose sides follow
    /// the zoom, the longer one stretched by the aspect ratio.
    pub fn view_box(&self) -> (r: (i64, i64, i64, i64))
        requires
            self.wf(),
        ensures
            -BOUND_MAX <= r.0 <= BOUND_MAX,
            -BOUND_MAX <= r.1 <= BOUND_MAX,
            -BOUND_MAX <= r.2 <= BOUND_MAX,
            -BOUND_MAX <= r.3 <= BOUND_MAX,
            r.0 == self.ox - spec_half_extent_x(*self) && r.2 == self.ox + spec_half_extent_x(
                *self,
            ),
            r.1 == self.oy - spec_half_extent_y(*self) && r.3 == self.oy + spec_half_extent_y(
                *self,
            ),
    {
        proof {
            lemma_view_extent_bounds(*self);
        }
        let hx = self.half_extent_x();
        let hy = self.half_extent_y();
        (self.ox - hx, self.oy - hy, self.ox + hx, self.oy + hy)
    }

    /// Half the view width.
    fn half_extent_x(&self) -> (r: i64)
        requires
            self.wf(),
        ensures
            r as int == spec_half_extent_x(*self),
    {
        proof {
            lemma_view_extent_bounds(*self);
            assert(0 <= (self.aspect_ratio as int) * (SCALE as int)
                <= 10_000_000_000_000_000) by (nonlinear_arith)
                requires
                    0 <= self.aspect_ratio <= VAL_MAX,
                    SCALE == 1_000_000,
                    VAL_MAX == 10_000_000_000,
            ;
            lemma_divt_shrinks((self.aspect_ratio as int) * (SCALE as int), self.zoom as int);
            lemma_divt_shrinks((SCALE as int) * (SCALE as int), self.zoom as int);
        }
        if self.aspect_ratio >= SCALE {
            let dx = muldiv(self.aspect_ratio, SCALE, self.zoom);
            dx / 2
        } else {
            let dx = muldiv(SCALE, SCALE, self.zoom);
            dx / 2
        }
    }

    /// Half the view height.
    fn half_extent_y(&self) -> (r: i64)
        requires
            self.wf(),
        ensures
            r as int == spec_half_extent_y(*self),
    {
        proof {
            lemma_view_extent_bounds(*self);
            lemma_divt_shrinks((SCALE as int) * (SCALE as int), self.zoom as int);
        }
        if self.aspect_ratio >= SCALE {
            let dy = muldiv(SCALE, SCALE, self.zoom);
            dy / 2
        } else {
            let dy = muldiv(SCALE, SCALE, self.zoom);
            proof {
                lemma_divt_shrinks(
                    (dy as int) * (SCALE as int),
                    self.aspect_ratio as int,
                );
                assert(-100_000_000_000_000_000_000 <= (dy as int) * (SCALE as int)
                    <= 100_000_000_000_000_000_000) by (nonlinear_arith)
                    requires
                        -10_000_000_000_000 <= dy <= 10_000_000_000_000,
                        SCALE == 1_000_000,
                ;
            }
            let dy2 = muldiv(dy, SCALE, self.aspect_ratio);
            dy2 / 2
        }
    }

    /// Copy the view box into the mesh bounds.
    pub fn update_view_box(&mut self)
        requires
            old(self).wf(),
        ensures
            final(self).wf(),
            *final(self) == (Pipeline { parameters: final(self).parameters, ..*old(self) }),
            final(self).parameters == (Parameters {
                xmin: final(self).parameters.xmin,
                xmax: final(self).parameters.xmax,
                ymin: final(self).parameters.ymin,
                ymax: final(self).parameters.ymax,
                ..old(self).parameters
            }),
            final(self).parameters.xmin == old(self).ox - spec_half_extent_x(*old(self)),
            final(self).parameters.xmax == old(self).ox + spec_half_extent_x(*old(self)),
            final(self).parameters.ymin == old(self).oy - spec_half_extent_y(*old(self)),
            final(self).parameters.ymax == old(self).oy + spec_half_extent_y(*old(self)),
    {
        let (x1, y1, x2, y2) = self.view_box();
        self.parameters.xmin = x1;
        self.parameters.ymin = y1;
        self.parameters.xmax = x2;
        self.parameters.ymax = y2;
    }

    /// The weight of one row: the weight column's value clamped to the
    /// admitted nonnegative range, or one whole unit without a weight column.
    pub open spec fn spec_weight(self, i: int) -> int {
        if self.parameters.weight_column@.len() == 0 || !self.point_data.has_data(
            self.parameters.weight_column@,
        ) {
            SCALE as int
        } else {
            let w = self.point_data.data_at(self.parameters.weight_column@)[i];
            if w < 0 {
                0
            } else {
                w as int
            }
        }
    }
}

/// Half of one whole unit, the default pan offset.
pub const HALF_UNIT: i64 = 500_000;

/// Half the view width, in micro-units.
pub open spec fn spec_half_extent_x(p: Pipeline) -> int {
    if p.aspect_ratio >= SCALE {
        divt(p.aspect_ratio * SCALE, p.zoom as int) / 2
    } else {
        divt(SCALE * SCALE, p.zoom as int) / 2
    }
}

/// Half the view height, in micro-units.
pub open spec fn spec_half_extent_y(p: Pipeline) -> int {
    if p.aspect_ratio >= SCALE {
        divt(SCALE * SCALE, p.zoom as int) / 2
    } else {
        divt(divt(SCALE * SCALE, p.zoom as int) * SCALE, p.aspect_ratio as int) / 2
    }
}

/// The view extents stay within the admitted bound range.
pub proof fn lemma_view_extent_bounds(p: Pipeline)
    requires
        p.wf(),
    ensures
        0 <= spec_half_extent_x(p) <= 50_000_000_000,
        0 <= spec_half_extent_y(p) <= 50_000_000_000,
{
    let z = p.zoom as int;
    let a = p.aspect_ratio as int;
    assert(0 <= a * SCALE <= 10_000_000_000_000_000) by (nonlinear_arith)
        requires
            0 <= a <= VAL_MAX,
            SCALE == 1_000_000,
            VAL_MAX == 10_000_000_000,
    ;
    lemma_divt_quotient_bound(a * SCALE, z, 100_000, 100_000_000_000);
    lemma_divt_quotient_bound(SCALE * SCALE, z, 100_000, 10_000_000);
    let inner = divt(SCALE * SCALE, z);
    assert(0 <= inner * SCALE <= 10_000_000_000_000) by (nonlinear_arith)
        requires
            0 <= inner <= 10_000_000,
            SCALE == 1_000_000,
    ;
    lemma_divt_quotient_bound(inner * SCALE, a, 100_000, 100_000_000);
}

/// A nonnegative truncating quotient with a divisor at least `dmin` is
/// bounded by the numerator over `dmin`.
pub proof fn lemma_divt_quotient_bound(a: int, d: int, dmin: int, q: int)
    requires
        0 <= a,
        0 < dmin <= d,
        a <= q * dmin,
        0 <= q,
    ensures
        0 <= divt(a, d) <= q,
{
    vstd::arithmetic::div_mod::lemma_div_pos_is_pos(a, d);
    vstd::arithmetic::div_mod::lemma_div_is_ordered(a, q * dmin, d);
    assert(q * dmin <= q * d) by (nonlinear_arith)
        requires
            0 <= q,
            dmin <= d,
    ;
    vstd::arithmetic::div_mod::lemma_div_is_ordered(q * dmin, q * d, d);
    vstd::arithmetic::div_mod::lemma_div_multiples_vanish(q, d);
}

/// Clamp a wide value into the admitted value range.
fn saturate_val(v: i128) -> (r: i64)
    ensures
        fits_val(r),
        -VAL_MAX <= v <= VAL_MAX ==> r as int == v as int,
{
    if v < -(VAL_MAX as i128) {
        -VAL_MAX
    } else if v > VAL_MAX as i128 {
        VAL_MAX
    } else {
        v as i64
    }
}

/// Copy a list of names.
fn clone_string_vec(names: &Vec<String>) -> (r: Vec<String>)
    ensures
        r@ == names@,
{
    let mut out: Vec<String> = Vec::new();
    let mut i: usize = 0;
    while i < names.len()
        invariant
            i <= names@.len(),
            out@ =~= names@.take(i as int),
        decreases names@.len() - i,
    {
        out.push(names[i].clone());
        proof {
            assert(out@ =~= names@.take(i + 1));
        }
        i = i + 1;
    }
    proof {
        assert(out@ =~= names@);
    }
    out
}


/// The group label of the whole-table statistics block.
pub const ALL: &'static str = "All";

/// The group label of the highlighted-rows statistics block.
pub const HIGHLIGHTED: &'static str = "Highlighted";

/// The group label of the non-highlighted-rows statistics block.
pub const NON_HIGHLIGHTED: &'static str = "Non-Highlighted";

/// One row-view entry is sound for the pipeline: its one-based row index is
/// in range, its coordinates are the transformed source values of that row
/// (the vertical one flipped so screen-down increases), its weight is the
/// row's weight, and its flag is the row's membership in the highlight
/// selection.
pub open spec fn entry_ok(p: Pipeline, e: (i64, i64, i64, usize, bool)) -> bool {
    let i = e.3 - 1;
    &&& 1 <= e.3 <= p.point_data.length
    &&& (match source_value(p.point_data, p.parameters.xcolumn@, i) {
        Some(xv) => p.tx.spec_transform(xv as int) == Some(e.0 as int),
        None => false,
    })
    &&& (match source_value(p.point_data, p.parameters.ycolumn@, i) {
        Some(yv) => p.ty.spec_transform(yv as int) == Some(SCALE - e.1),
        None => false,
    })
    &&& e.2 == p.spec_weight(i)
    &&& e.4 == bv_set(p.highlights).contains((e.3 - 1) as usize)
}

/// Whether row `i` belongs in the row view: both source values resolve, both
/// transforms map them, and the flipped vertical coordinate stays within the
/// machine range.
pub open spec fn row_included(p: Pipeline, i: int) -> bool {
    &&& (match source_value(p.point_data, p.parameters.xcolumn@, i) {
        Some(xv) => p.tx.spec_transform(xv as int) is Some,
        None => false,
    })
    &&& (match source_value(p.point_data, p.parameters.ycolumn@, i) {
        Some(yv) => match p.ty.spec_transform(yv as int) {
            Some(yy) => i64::MIN <= SCALE - yy <= i64::MAX,
            None => false,
        },
        None => false,
    })
}

/// Row `i` appears in the row view, under its one-based index.
pub open spec fn in_row_view(entries: Seq<(i64, i64, i64, usize, bool)>, i: int) -> bool {
    exists|k: int| 0 <= k < entries.len() && (#[trigger] entries[k]).3 == i + 1
}

/// Both axis columns resolve to a numeric or text column of the table.
pub open spec fn axes_resolve(p: Pipeline) -> bool {
    &&& (p.point_data.has_data(p.parameters.xcolumn@) || p.point_data.has_aux(
        p.parameters.xcolumn@,
    ))
    &&& (p.point_data.has_data(p.parameters.ycolumn@) || p.point_data.has_aux(
        p.parameters.ycolumn@,
    ))
}

/// The recorded row view is exactly the one the current table, calibrated
/// transforms, weights and highlight selection produce.
pub open spec fn row_view_ok(p: Pipeline) -> bool {
    &&& p.xyi@.len() <= p.point_data.length
    &&& forall|k: int| 0 <= k < p.xyi@.len() ==> entry_ok(p, #[trigger] p.xyi@[k])
    &&& forall|k1: int, k2: int|
        0 <= k1 < k2 < p.xyi@.len() ==> (#[trigger] p.xyi@[k1]).3 < (#[trigger] p.xyi@[k2]).3
    &&& (axes_resolve(p) ==> forall|i: int|
        0 <= i < p.point_data.length && row_included(p, i) ==> in_row_view(p.xyi@, i))
    &&& (axes_resolve(p) ==> crate::transform::freshly_calibrated(
        p.txtype,
        p.tx,
        some_values(source_options(p.point_data, p.parameters.xcolumn@)),
    ))
    &&& (axes_resolve(p) ==> crate::transform::freshly_calibrated(
        p.tytype,
        p.ty,
        some_values(source_options(p.point_data, p.parameters.ycolumn@)),
    ))
    &&& (!axes_resolve(p) ==> p.xyi@.len() == 0 && crate::transform::fresh_of(p.txtype, p.tx)
        && crate::transform::fresh_of(p.tytype, p.ty))
}

/// The mesh is freshly rebuilt at the current view and filled from the row
/// view: its bounds follow the pan and zoom, and in the plain deposit mode it
/// holds exactly the landed weight.
pub open spec fn mesh_built(p: Pipeline) -> bool {
    &&& p.mesh.width == p.parameters.mesh_width
    &&& p.mesh.height == p.parameters.mesh_height
    &&& p.mesh.xmin == p.parameters.xmin && p.mesh.xmax == p.parameters.xmax
    &&& p.mesh.ymin == p.parameters.ymin && p.mesh.ymax == p.parameters.ymax
    &&& p.parameters.xmin == p.ox - spec_half_extent_x(p)
    &&& p.parameters.xmax == p.ox + spec_half_extent_x(p)
    &&& p.parameters.ymin == p.oy - spec_half_extent_y(p)
    &&& p.parameters.ymax == p.oy + spec_half_extent_y(p)
    &&& (!p.parameters.gaussian_points ==> p.mesh.mass() == crate::mesh::landed_weight(
        p.mesh,
        p.xyi@,
    ))
    &&& (p.parameters.gaussian_points ==> p.mesh.mass() <= total_weight(p.xyi@))
}

/// The processed channels are the post-processing of the accumulated
/// channels, as the rendering mode prescribes.
pub open spec fn processed_ok(p: Pipeline) -> bool {
    let m = p.parameters.density_multiplier as int;
    let c = p.parameters.contrast as int;
    match p.parameters.highlight_type {
        HighlightType::Highlight => (forall|k: int|
            0 <= k < p.mesh.mesh@.len() ==> #[trigger] p.mesh.processed_mesh@[k] as int
                == crate::mesh::clamp_curve(p.mesh.mesh@[k] as int, m, c)) && (forall|k: int|
            0 <= k < p.mesh.highlight_mesh@.len()
                ==> #[trigger] p.mesh.processed_highlight_mesh@[k] as int
                == crate::mesh::clamp_curve(p.mesh.highlight_mesh@[k] as int, m, c)),
        HighlightType::NoHighlight => (forall|k: int|
            0 <= k < p.mesh.mesh@.len() ==> #[trigger] p.mesh.processed_mesh@[k] as int
                == crate::mesh::clamp_curve(
                p.mesh.mesh@[k] + p.mesh.highlight_mesh@[k],
                m,
                c,
            )) && (forall|k: int|
            0 <= k < p.mesh.mesh@.len() ==> #[trigger] p.mesh.processed_highlight_mesh@[k] == 0),
        HighlightType::HighlighedOnly => forall|k: int|
            0 <= k < p.mesh.highlight_mesh@.len()
                ==> #[trigger] p.mesh.processed_highlight_mesh@[k] as int
                == crate::mesh::clamp_curve(p.mesh.highlight_mesh@[k] as int, m, c),
        HighlightType::NonHighlightedOnly => (forall|k: int|
            0 <= k < p.mesh.mesh@.len() ==> #[trigger] p.mesh.processed_mesh@[k] as int
                == crate::mesh::clamp_curve(p.mesh.mesh@[k] as int, m, c)) && (forall|k: int|
            0 <= k < p.mesh.mesh@.len() ==> #[trigger] p.mesh.processed_highlight_mesh@[k] == 0),
    }
}

/// The output buffer is the colorization of the processed channels, as the
/// rendering mode prescribes.
pub open spec fn colorized_ok(p: Pipeline) -> bool {
    match p.parameters.highlight_type {
        HighlightType::Highlight => forall|j: int| #![trigger p.mesh.rgba8@[j]]
            0 <= j < p.mesh.rgba8@.len() ==> p.mesh.rgba8@[j] as int == (if j % 4 == 0 {
                crate::mesh::gray_level(p.mesh.processed_highlight_mesh@[j / 4] as int)
            } else {
                crate::mesh::cyan_pixel(p.mesh.processed_mesh@, j)
            }),
        HighlightType::NoHighlight => forall|j: int| #![trigger p.mesh.rgba8@[j]]
            0 <= j < p.mesh.rgba8@.len() ==> p.mesh.rgba8@[j] as int == crate::mesh::cyan_pixel(
                p.mesh.processed_mesh@,
                j,
            ),
        HighlightType::HighlighedOnly => forall|j: int| #![trigger p.mesh.rgba8@[j]]
            0 <= j < p.mesh.rgba8@.len() ==> p.mesh.rgba8@[j] as int == (if j % 4 == 0 {
                crate::mesh::gray_level(p.mesh.processed_highlight_mesh@[j / 4] as int)
            } else if j % 4 == 3 {
                255
            } else {
                0
            }),
        HighlightType::NonHighlightedOnly => forall|j: int| #![trigger p.mesh.rgba8@[j]]
            0 <= j < p.mesh.rgba8@.len() ==> p.mesh.rgba8@[j] as int == crate::mesh::cyan_pixel(
                p.mesh.processed_mesh@,
                j,
            ),
    }
}


/// The row-view coherence predicate reads only the table, the axis and
/// weight columns, the transforms, the selection and the row view itself; a
/// state equal in those is coherent whenever the other is.
pub proof fn lemma_row_view_stable(a: Pipeline, b: Pipeline)
    requires
        b.point_data == a.point_data,
        b.parameters.xcolumn == a.parameters.xcolumn,
        b.parameters.ycolumn == a.parameters.ycolumn,
        b.parameters.weight_column == a.parameters.weight_column,
        b.tx == a.tx,
        b.ty == a.ty,
        b.txtype == a.txtype,
        b.tytype == a.tytype,
        b.highlights == a.highlights,
        b.xyi == a.xyi,
        row_view_ok(a),
    ensures
        row_view_ok(b),
{
    assert(axes_resolve(b) == axes_resolve(a));
    assert forall|k: int| 0 <= k < b.xyi@.len() implies entry_ok(b, #[trigger] b.xyi@[k]) by {
        assert(entry_ok(a, a.xyi@[k]));
        assert(b.spec_weight(b.xyi@[k].3 - 1) == a.spec_weight(a.xyi@[k].3 - 1));
    };
    if axes_resolve(b) {
        assert forall|i: int|
            0 <= i < b.point_data.length && row_included(b, i) implies in_row_view(
            b.xyi@,
            i,
        ) by {
            assert(row_included(a, i) == row_included(b, i));
        };
    }
}

/// The mesh coherence predicate reads only the grid geometry, the
/// accumulated channels, the view settings and the row view; a state equal
/// in those is coherent whenever the other is.
pub proof fn lemma_mesh_built_stable(a: Pipeline, b: Pipeline)
    requires
        b.parameters == a.parameters,
        b.ox == a.ox,
        b.oy == a.oy,
        b.zoom == a.zoom,
        b.aspect_ratio == a.aspect_ratio,
        b.xyi == a.xyi,
        b.mesh.same_geometry(a.mesh),
        b.mesh.mesh@ == a.mesh.mesh@,
        b.mesh.highlight_mesh@ == a.mesh.highlight_mesh@,
        mesh_built(a),
    ensures
        mesh_built(b),
{
    crate::mesh::lemma_landed_geometry(a.mesh, b.mesh, a.xyi@);
    assert(spec_half_extent_x(b) == spec_half_extent_x(a));
    assert(spec_half_extent_y(b) == spec_half_extent_y(a));
    assert(b.mesh.mass() == a.mesh.mass());
}

/// The per-row numeric readings of a column, if the table can resolve it.
fn column_options(data: &PointData, col: &str) -> (r: Option<Vec<Option<i64>>>)
    requires
        data.wf(),
    ensures
        match r {
            Some(v) => {
                &&& data.has_data(col@) || data.has_aux(col@)
                &&& v@.len() == data.length
                &&& forall|i: int| #![trigger v@[i]]
                    0 <= i < data.length ==> v@[i] == source_value(*data, col@, i)
                &&& forall|i: int| #![trigger v@[i]]
                    0 <= i < data.length ==> (v@[i] matches Some(x) ==> fits_val(x))
            },
            None => !data.has_data(col@) && !data.has_aux(col@),
        },
{
    match data.data_column(col) {
        Some(vals) => {
            let mut out: Vec<Option<i64>> = Vec::new();
            let mut i: usize = 0;
            while i < vals.len()
                invariant
                    i <= vals@.len(),
                    data.wf(),
                    data.has_data(col@),
                    vals@ == data.data_at(col@),
                    vals@.len() == data.length,
                    out@.len() == i,
                    forall|k: int| #![trigger out@[k]]
                        0 <= k < i ==> out@[k] == Some(vals@[k]) && fits_val(vals@[k]),
                decreases vals@.len() - i,
            {
                proof {
                    let cidx = crate::pointdata::name_idx(data.data_names@, col@);
                    assert(data.has_data(col@));
                    assert(0 <= cidx < data.data_columns@.len());
                    assert(fits_val(data.data_columns@[cidx]@[i as int]));
                }
                out.push(Some(vals[i]));
                i = i + 1;
            }
            Some(out)
        },
        None => {
            match data.aux_column(col) {
                Some(texts) => {
                    let mut out: Vec<Option<i64>> = Vec::new();
                    let mut i: usize = 0;
                    while i < texts.len()
                        invariant
                            i <= texts@.len(),
                            data.wf(),
                            !data.has_data(col@),
                            data.has_aux(col@),
                            texts@ == data.aux_at(col@),
                            texts@.len() == data.length,
                            out@.len() == i,
                            forall|k: int| #![trigger out@[k]]
                                0 <= k < i ==> out@[k] == parse_cell(texts@[k]@) && (out@[k]
                                    matches Some(x) ==> fits_val(x)),
                        decreases texts@.len() - i,
                    {
                        let cell = texts[i].as_str();
                        let parsed = crate::text::parse_fixed(cell);
                        out.push(parsed);
                        i = i + 1;
                    }
                    Some(out)
                },
                None => None,
            }
        },
    }
}

/// The defined readings of an optional column, in row order.
pub open spec fn some_values(v: Seq<Option<i64>>) -> Seq<i64>
    decreases v.len(),
{
    if v.len() == 0 {
        Seq::empty()
    } else {
        let rest = some_values(v.drop_last());
        match v.last() {
            Some(x) => rest.push(x),
            None => rest,
        }
    }
}

/// The per-row readings of the named column, as `source_value` gives them.
pub open spec fn source_options(data: PointData, col: Seq<char>) -> Seq<Option<i64>> {
    Seq::new(data.length as nat, |i: int| source_value(data, col, i))
}

/// The readings that parsed, for calibration.
fn defined_values(v: &Vec<Option<i64>>) -> (r: Vec<i64>)
    requires
        forall|i: int| #![trigger v@[i]]
            0 <= i < v@.len() ==> (v@[i] matches Some(x) ==> fits_val(x)),
    ensures
        r@ == some_values(v@),
        r@.len() <= v@.len(),
        forall|k: int| 0 <= k < r@.len() ==> fits_val(#[trigger] r@[k]),
{
    let mut out: Vec<i64> = Vec::new();
    let mut i: usize = 0;
    while i < v.len()
        invariant
            i <= v@.len(),
            forall|k: int| #![trigger v@[k]]
                0 <= k < v@.len() ==> (v@[k] matches Some(x) ==> fits_val(x)),
            out@ == some_values(v@.take(i as int)),
            out@.len() <= i,
            forall|k: int| 0 <= k < out@.len() ==> fits_val(#[trigger] out@[k]),
        decreases v@.len() - i,
    {
        proof {
            assert(v@.take(i + 1).drop_last() =~= v@.take(i as int));
            assert(v@.take(i + 1).last() == v@[i as int]);
        }
        match v[i] {
            Some(x) => {
                out.push(x);
            },
            None => {},
        }
        i = i + 1;
    }
    proof {
        assert(v@.take(v@.len() as int) =~= v@);
    }
    out
}

impl Pipeline {
    /// The per-row weights: the weight column clamped into the admitted
    /// nonnegative range, or unit weights without one.
    pub fn weights_vec(&self) -> (r: Vec<i64>)
        requires
            self.wf(),
        ensures
            r@.len() == self.point_data.length,
            forall|i: int| #![trigger r@[i]]
                0 <= i < r@.len() ==> r@[i] == self.spec_weight(i) && 0 <= r@[i] <= VAL_MAX,
    {
        let n = self.point_data.len();
        if self.parameters.weight_column.as_str().is_empty() {
            return unit_vec(n);
        }
        match self.point_data.data_column(self.parameters.weight_column.as_str()) {
            Some(vals) => {
                let mut out: Vec<i64> = Vec::new();
                let mut i: usize = 0;
                while i < vals.len()
                    invariant
                        i <= vals@.len(),
                        self.wf(),
                        self.parameters.weight_column@.len() > 0,
                        self.point_data.has_data(self.parameters.weight_column@),
                        vals@ == self.point_data.data_at(self.parameters.weight_column@),
                        vals@.len() == self.point_data.length,
                        out@.len() == i,
                        forall|k: int| #![trigger out@[k]]
                            0 <= k < i ==> out@[k] == self.spec_weight(k) && 0 <= out@[k]
                                <= VAL_MAX,
                    decreases vals@.len() - i,
                {
                    proof {
                        let cidx = crate::pointdata::name_idx(
                            self.point_data.data_names@,
                            self.parameters.weight_column@,
                        );
                        assert(self.point_data.has_data(self.parameters.weight_column@));
                        assert(0 <= cidx < self.point_data.data_columns@.len());
                        assert(fits_val(self.point_data.data_columns@[cidx]@[i as int]));
                    }
                    let w = vals[i];
                    if w < 0 {
                        out.push(0);
                    } else {
                        out.push(w);
                    }
                    i = i + 1;
                }
                out
            },
            None => unit_vec(n),
        }
    }

    /// Rebuild the row view: resynchronize the highlight selection to the
    /// row count, calibrate fresh transforms on the source columns, and keep
    /// exactly the rows whose coordinates both resolve and map, in row order.
    /// An unresolvable axis column yields an empty row view.
    pub fn extract_xyi(&mut self)
        requires
            old(self).wf(),
        ensures
            final(self).wf(),
            final(self).stage == Stage::Stage1XYI,
            *final(self) == (Pipeline {
                highlights: final(self).highlights,
                tx: final(self).tx,
                ty: final(self).ty,
                xyi: final(self).xyi,
                stage: Stage::Stage1XYI,
                ..*old(self)
            }),
            row_view_ok(*final(self)),
            final(self).xyi@.len() <= final(self).point_data.length,
            forall|k: int|
                0 <= k < final(self).xyi@.len() ==> entry_ok(
                    *final(self),
                    #[trigger] final(self).xyi@[k],
                ),
            forall|k1: int, k2: int|
                0 <= k1 < k2 < final(self).xyi@.len() ==> (#[trigger] final(self).xyi@[k1]).3 < (
                #[trigger] final(self).xyi@[k2]).3,
            axes_resolve(*final(self)) ==> forall|i: int|
                0 <= i < final(self).point_data.length && row_included(*final(self), i)
                    ==> in_row_view(final(self).xyi@, i),
            axes_resolve(*final(self)) ==> crate::transform::freshly_calibrated(
                old(self).txtype,
                final(self).tx,
                some_values(
                    source_options(final(self).point_data, final(self).parameters.xcolumn@),
                ),
            ),
            axes_resolve(*final(self)) ==> crate::transform::freshly_calibrated(
                old(self).tytype,
                final(self).ty,
                some_values(
                    source_options(final(self).point_data, final(self).parameters.ycolumn@),
                ),
            ),
            !axes_resolve(*final(self)) ==> final(self).xyi@.len() == 0 && crate::transform::fresh_of(
                old(self).txtype,
                final(self).tx,
            ) && crate::transform::fresh_of(old(self).tytype, final(self).ty),
    {
        let n = self.point_data.len();
        proof {
            assert(n + 63 < usize::MAX) by {
                assert(n <= ROWS_MAX);
            };
        }
        let expected: usize = ((n + 63) / 64) * 64;
        if bv_capacity(&self.highlights) != expected {
            let kept = bv_to_vec(&self.highlights);
            let mut fresh = bv_new(n);
            let mut k: usize = 0;
            while k < kept.len()
                invariant
                    k <= kept@.len(),
                    bv_cap(fresh) == word_rounded(n as nat),
                decreases kept@.len() - k,
            {
                let row = kept[k];
                if row < n {
                    proof {
                        assert((row as nat) < word_rounded(n as nat)) by {
                            assert(n <= ((n + 63) / 64) * 64) by (nonlinear_arith);
                        };
                    }
                    bv_insert(&mut fresh, row);
                }
                k = k + 1;
            }
            self.highlights = fresh;
        }
        self.tx = self.txtype.to_transform();
        self.ty = self.tytype.to_transform();
        self.xyi = Vec::new();
        let xsrc = column_options(&self.point_data, self.parameters.xcolumn.as_str());
        let ysrc = column_options(&self.point_data, self.parameters.ycolumn.as_str());
        match (xsrc, ysrc) {
            (Some(xopt), Some(yopt)) => {
                let xcal = defined_values(&xopt);
                let ycal = defined_values(&yopt);
                proof {
                    assert(xcal@.len() <= ROWS_MAX && ycal@.len() <= ROWS_MAX);
                    assert(xopt@ =~= source_options(self.point_data, self.parameters.xcolumn@));
                    assert(yopt@ =~= source_options(self.point_data, self.parameters.ycolumn@));
                }
                let ghost tx_base = self.tx;
                let ghost ty_base = self.ty;
                self.tx.calibrate(&xcal);
                self.ty.calibrate(&ycal);
                proof {
                    assert(crate::transform::freshly_calibrated(
                        self.txtype,
                        self.tx,
                        some_values(
                            source_options(self.point_data, self.parameters.xcolumn@),
                        ),
                    )) by {
                        assert(crate::transform::fresh_of(self.txtype, tx_base));
                        assert(crate::transform::calibrated_from(tx_base, self.tx, xcal@));
                    };
                    assert(crate::transform::freshly_calibrated(
                        self.tytype,
                        self.ty,
                        some_values(
                            source_options(self.point_data, self.parameters.ycolumn@),
                        ),
                    )) by {
                        assert(crate::transform::fresh_of(self.tytype, ty_base));
                        assert(crate::transform::calibrated_from(ty_base, self.ty, ycal@));
                    };
                }
                let wts = self.weights_vec();
                let mut out: Vec<(i64, i64, i64, usize, bool)> = Vec::new();
                let mut i: usize = 0;
                while i < n
                    invariant
                        i <= n,
                        n == self.point_data.length,
                        self.wf(),
                        xopt@.len() == n,
                        yopt@.len() == n,
                        wts@.len() == n,
                        forall|k: int| #![trigger xopt@[k]]
                            0 <= k < n ==> xopt@[k] == source_value(
                                self.point_data,
                                self.parameters.xcolumn@,
                                k,
                            ) && (xopt@[k] matches Some(x) ==> fits_val(x)),
                        forall|k: int| #![trigger yopt@[k]]
                            0 <= k < n ==> yopt@[k] == source_value(
                                self.point_data,
                                self.parameters.ycolumn@,
                                k,
                            ) && (yopt@[k] matches Some(x) ==> fits_val(x)),
                        forall|k: int| #![trigger wts@[k]]
                            0 <= k < n ==> wts@[k] == self.spec_weight(k) && 0 <= wts@[k]
                                <= VAL_MAX,
                        out@.len() <= i,
                        forall|k: int|
                            0 <= k < out@.len() ==> entry_ok(*self, #[trigger] out@[k]),
                        forall|k: int|
                            0 <= k < out@.len() ==> (#[trigger] out@[k]).3 <= i,
                        forall|k1: int, k2: int|
                            0 <= k1 < k2 < out@.len() ==> (#[trigger] out@[k1]).3 < (
                            #[trigger] out@[k2]).3,
                        forall|i2: int|
                            0 <= i2 < i && row_included(*self, i2) ==> in_row_view(out@, i2),
                    decreases n - i,
                {
                    match xopt[i] {
                        Some(xv) => {
                            match yopt[i] {
                                Some(yv) => {
                                    match self.tx.transform(xv) {
                                        Some(xx) => {
                                            match self.ty.transform(yv) {
                                                Some(yy) => {
                                                    let flip_wide: i128 = (SCALE as i128) - (
                                                    yy as i128);
                                                    if -0x8000_0000_0000_0000i128 <= flip_wide && flip_wide
                                                        <= 0x7fff_ffff_ffff_ffffi128 {
                                                        let flipped = flip_wide as i64;
                                                        let hl = bv_contains(&self.highlights, i);
                                                        let e = (xx, flipped, wts[i], i + 1, hl);
                                                        let ghost prev = out@;
                                                        proof {
                                                            assert(entry_ok(*self, e));
                                                        }
                                                        out.push(e);
                                                        proof {
                                                            assert forall|i2: int|
                                                                0 <= i2 < i + 1 && row_included(
                                                                    *self,
                                                                    i2,
                                                                ) implies in_row_view(
                                                                out@,
                                                                i2,
                                                            ) by {
                                                                if i2 == i {
                                                                    assert(out@[prev.len() as int].3
                                                                        == i + 1);
                                                                } else {
                                                                    let k = choose|k: int|
                                                                        0 <= k < prev.len() && (
                                                                        #[trigger] prev[k]).3 == i2
                                                                            + 1;
                                                                    assert(out@[k] == prev[k]);
                                                                }
                                                            };
                                                        }
                                                    } else {
                                                        proof {
                                                            assert(!row_included(*self, i as int));
                                                        }
                                                    }
                                                },
                                                None => {
                                                    proof {
                                                        assert(!row_included(*self, i as int));
                                                    }
                                                },
                                            }
                                        },
                                        None => {
                                            proof {
                                                assert(!row_included(*self, i as int));
                                            }
                                        },
                                    }
                                },
                                None => {
                                    proof {
                                        assert(!row_included(*self, i as int));
                                    }
                                },
                            }
                        },
                        None => {
                            proof {
                                assert(!row_included(*self, i as int));
                            }
                        },
                    }
                    i = i + 1;
                }
                self.xyi = out;
                proof {
                    assert forall|i2: int|
                        0 <= i2 < self.point_data.length && row_included(*self, i2) implies
                        in_row_view(self.xyi@, i2) by {
                    };
                }
            },
            _ => {},
        }
        self.stage = Stage::Stage1XYI;
    }

    /// Deposit the row view into the mesh with the configured kernel.
    pub fn add_points(&mut self)
        requires
            old(self).wf(),
            old(self).mesh.mass() == 0,
        ensures
            final(self).wf(),
            final(self).stage == Stage::Stage2Mesh,
            *final(self) == (Pipeline {
                mesh: final(self).mesh,
                stage: Stage::Stage2Mesh,
                ..*old(self)
            }),
            final(self).mesh.same_geometry(old(self).mesh),
            !old(self).parameters.gaussian_points ==> final(self).mesh.mass()
                == crate::mesh::landed_weight(old(self).mesh, old(self).xyi@),
            old(self).parameters.gaussian_points ==> final(self).mesh.mass() <= total_weight(
                old(self).xyi@,
            ),
    {
        proof {
            lemma_weight_cap(self.xyi@);
            assert(self.xyi@.len() * VAL_MAX <= 100_000_000 * VAL_MAX) by (nonlinear_arith)
                requires
                    0 <= self.xyi@.len() <= 100_000_000,
                    VAL_MAX > 0,
            ;
        }
        if self.parameters.gaussian_points {
            self.mesh.add_points_gaussian(&self.xyi, self.parameters.point_sigma);
        } else {
            self.mesh.add_points(&self.xyi, false);
        }
        self.stage = Stage::Stage2Mesh;
    }

    /// Post-process the accumulated channels for the configured rendering
    /// mode: which processed copies are built and clamped follows the mode.
    pub fn to_processed_mesh(&mut self)
        requires
            old(self).wf(),
        ensures
            final(self).wf(),
            final(self).stage == Stage::Stage3ProcessedMesh,
            *final(self) == (Pipeline {
                mesh: final(self).mesh,
                stage: Stage::Stage3ProcessedMesh,
                ..*old(self)
            }),
            final(self).mesh == (Mesh {
                processed_mesh: final(self).mesh.processed_mesh,
                processed_highlight_mesh: final(self).mesh.processed_highlight_mesh,
                ..old(self).mesh
            }),
            processed_ok(*final(self)),
    {
        proof {
            crate::mesh::lemma_sum_bounds(self.mesh.mesh@);
            crate::mesh::lemma_sum_bounds(self.mesh.highlight_mesh@);
        }
        let m = self.parameters.density_multiplier;
        let c = self.parameters.contrast;
        match self.parameters.highlight_type {
            HighlightType::Highlight => {
                self.mesh.to_processed_mesh();
                self.mesh.clamp_processed_mesh(m, c);
                self.mesh.to_processed_highlight_mesh();
                self.mesh.clamp_processed_highlight_mesh(m, c);
            },
            HighlightType::NoHighlight => {
                self.mesh.to_processed_mesh_sum_highlight();
                proof {
                    crate::mesh::lemma_sum_bounds(self.mesh.mesh@);
                    crate::mesh::lemma_sum_bounds(self.mesh.highlight_mesh@);
                }
                self.mesh.clamp_processed_mesh(m, c);
            },
            HighlightType::HighlighedOnly => {
                self.mesh.to_processed_highlight_mesh();
                self.mesh.clamp_processed_highlight_mesh(m, c);
            },
            HighlightType::NonHighlightedOnly => {
                self.mesh.clean_processed_highlight_mesh();
                self.mesh.to_processed_mesh();
                self.mesh.clamp_processed_mesh(m, c);
            },
        }
        self.stage = Stage::Stage3ProcessedMesh;
    }

    /// Colorize the processed channels for the configured rendering mode.
    pub fn to_rgba8(&mut self)
        requires
            old(self).wf(),
        ensures
            final(self).wf(),
            *final(self) == (Pipeline { mesh: final(self).mesh, ..*old(self) }),
            final(self).mesh == (Mesh { rgba8: final(self).mesh.rgba8, ..old(self).mesh }),
            colorized_ok(*final(self)),
    {
        match self.parameters.highlight_type {
            HighlightType::Highlight => {
                self.mesh.to_rgba8_blue_cyan();
                let ghost mid = *self;
                self.mesh.add_rgba8_red_highlight();
                proof {
                    assert forall|j: int| 0 <= j < self.mesh.rgba8@.len() implies
                        #[trigger] self.mesh.rgba8@[j] as int == (if j % 4 == 0 {
                        crate::mesh::gray_level(self.mesh.processed_highlight_mesh@[j / 4] as int)
                    } else {
                        crate::mesh::cyan_pixel(self.mesh.processed_mesh@, j)
                    }) by {
                        if j % 4 == 0 {
                            let k = j / 4;
                            assert(j == 4 * k);
                            assert(self.mesh.rgba8@[4 * k] as int == crate::mesh::gray_level(
                                mid.mesh.processed_highlight_mesh@[k] as int,
                            ));
                        } else {
                            assert(self.mesh.rgba8@[j] == mid.mesh.rgba8@[j]);
                            assert(mid.mesh.rgba8@[j] as int == crate::mesh::cyan_pixel(
                                old(self).mesh.processed_mesh@,
                                j,
                            ));
                        }
                    };
                }
            },
            HighlightType::NoHighlight => {
                self.mesh.to_rgba8_blue_cyan();
            },
            HighlightType::HighlighedOnly => {
                self.mesh.clean_rgba();
                let ghost mid = *self;
                self.mesh.add_rgba8_red_highlight();
                proof {
                    assert forall|j: int| 0 <= j < self.mesh.rgba8@.len() implies
                        #[trigger] self.mesh.rgba8@[j] as int == (if j % 4 == 0 {
                        crate::mesh::gray_level(self.mesh.processed_highlight_mesh@[j / 4] as int)
                    } else if j % 4 == 3 {
                        255int
                    } else {
                        0int
                    }) by {
                        if j % 4 == 0 {
                            let k = j / 4;
                            assert(j == 4 * k);
                            assert(self.mesh.rgba8@[4 * k] as int == crate::mesh::gray_level(
                                mid.mesh.processed_highlight_mesh@[k] as int,
                            ));
                        } else {
                            assert(self.mesh.rgba8@[j] == mid.mesh.rgba8@[j]);
                        }
                    };
                }
            },
            HighlightType::NonHighlightedOnly => {
                self.mesh.to_rgba8_blue_cyan();
            },
        }
    }

    /// Publish the output buffer: the colorized bytes are complete and the
    /// pipeline is fully advanced.
    pub fn present(&mut self)
        requires
            old(self).wf(),
        ensures
            final(self).wf(),
            *final(self) == (Pipeline { stage: Stage::Stage4Texture, ..*old(self) }),
    {
        self.stage = Stage::Stage4Texture;
    }

    /// Advance exactly one stage: build the row view, rebuild and fill the
    /// mesh, post-process, or colorize and present. Returns whether the
    /// pipeline was already fully advanced.
    pub fn pipeline_step(&mut self) -> (r: bool)
        requires
            old(self).wf(),
        ensures
            final(self).wf(),
            r == (old(self).stage == Stage::Stage4Texture),
            r ==> *final(self) == *old(self),
            !r ==> stage_rank(final(self).stage) == stage_rank(old(self).stage) + 1,
            old(self).stage == Stage::Stage0NewData ==> row_view_ok(*final(self)) && *final(self)
                == (Pipeline {
                highlights: final(self).highlights,
                tx: final(self).tx,
                ty: final(self).ty,
                xyi: final(self).xyi,
                stage: Stage::Stage1XYI,
                ..*old(self)
            }),
            old(self).stage == Stage::Stage1XYI ==> mesh_built(*final(self)) && *final(self)
                == (Pipeline {
                parameters: final(self).parameters,
                mesh: final(self).mesh,
                stage: Stage::Stage2Mesh,
                ..*old(self)
            }) && final(self).parameters == (Parameters {
                xmin: final(self).parameters.xmin,
                xmax: final(self).parameters.xmax,
                ymin: final(self).parameters.ymin,
                ymax: final(self).parameters.ymax,
                ..old(self).parameters
            }),
            old(self).stage == Stage::Stage2Mesh ==> processed_ok(*final(self)) && *final(self)
                == (Pipeline {
                mesh: final(self).mesh,
                stage: Stage::Stage3ProcessedMesh,
                ..*old(self)
            }) && final(self).mesh == (Mesh {
                processed_mesh: final(self).mesh.processed_mesh,
                processed_highlight_mesh: final(self).mesh.processed_highlight_mesh,
                ..old(self).mesh
            }),
            old(self).stage == Stage::Stage3ProcessedMesh ==> colorized_ok(*final(self)) && *final(self) == (Pipeline {
                mesh: final(self).mesh,
                stage: Stage::Stage4Texture,
                ..*old(self)
            }) && final(self).mesh == (Mesh { rgba8: final(self).mesh.rgba8, ..old(self).mesh }),
    {
        match self.stage {
            Stage::Stage0NewData => {
                self.extract_xyi();
                false
            },
            Stage::Stage1XYI => {
                let ghost start = *self;
                self.update_view_box();
                let params = &self.parameters;
                params.adapt_mesh(&mut self.mesh);
                let ghost adapted = *self;
                self.add_points();
                proof {
                    crate::mesh::lemma_landed_geometry(adapted.mesh, self.mesh, self.xyi@);
                    assert(spec_half_extent_x(*self) == spec_half_extent_x(start));
                    assert(spec_half_extent_y(*self) == spec_half_extent_y(start));
                }
                false
            },
            Stage::Stage2Mesh => {
                self.to_processed_mesh();
                false
            },
            Stage::Stage3ProcessedMesh => {
                self.to_rgba8();
                self.present();
                false
            },
            Stage::Stage4Texture => true,
        }
    }

    /// Run to completion: step until the buffer is presented. Bounded by the
    /// five-stage ladder, so it always terminates; on return every stage of
    /// work at or above the starting stage has been redone, so the published
    /// buffer reflects the state the run began from and nothing stale is
    /// presented.
    pub fn run(&mut self)
        requires
            old(self).wf(),
        ensures
            final(self).wf(),
            final(self).stage == Stage::Stage4Texture,
            stage_rank(old(self).stage) <= 0 ==> row_view_ok(*final(self)),
            stage_rank(old(self).stage) <= 1 ==> mesh_built(*final(self)),
            stage_rank(old(self).stage) <= 2 ==> processed_ok(*final(self)),
            stage_rank(old(self).stage) <= 3 ==> colorized_ok(*final(self)),
    {
        loop
            invariant
                self.wf(),
                stage_rank(old(self).stage) <= stage_rank(self.stage),
                stage_rank(old(self).stage) <= 0 && 1 <= stage_rank(self.stage) ==> row_view_ok(
                    *self,
                ),
                stage_rank(old(self).stage) <= 1 && 2 <= stage_rank(self.stage) ==> mesh_built(
                    *self,
                ),
                stage_rank(old(self).stage) <= 2 && 3 <= stage_rank(self.stage) ==> processed_ok(
                    *self,
                ),
                stage_rank(old(self).stage) <= 3 && 4 <= stage_rank(self.stage) ==> colorized_ok(
                    *self,
                ),
            ensures
                self.stage == Stage::Stage4Texture,
                stage_rank(old(self).stage) <= 0 ==> row_view_ok(*self),
                stage_rank(old(self).stage) <= 1 ==> mesh_built(*self),
                stage_rank(old(self).stage) <= 2 ==> processed_ok(*self),
                stage_rank(old(self).stage) <= 3 ==> colorized_ok(*self),
            decreases 4 - stage_rank(self.stage),
        {
            let ghost prev = *self;
            if self.pipeline_step() {
                break ;
            }
            proof {
                if prev.stage == Stage::Stage1XYI && row_view_ok(prev) {
                    lemma_row_view_stable(prev, *self);
                }
                if prev.stage == Stage::Stage2Mesh {
                    if row_view_ok(prev) {
                        lemma_row_view_stable(prev, *self);
                    }
                    if mesh_built(prev) {
                        lemma_mesh_built_stable(prev, *self);
                    }
                }
                if prev.stage == Stage::Stage3ProcessedMesh {
                    if row_view_ok(prev) {
                        lemma_row_view_stable(prev, *self);
                    }
                    if mesh_built(prev) {
                        lemma_mesh_built_stable(prev, *self);
                    }
                }
            }
        }
    }
}

/// A vector of `n` unit weights.
fn unit_vec(n: usize) -> (r: Vec<i64>)
    ensures
        r@.len() == n,
        forall|i: int| 0 <= i < n ==> #[trigger] r@[i] == SCALE,
{
    let mut out: Vec<i64> = Vec::new();
    let mut i: usize = 0;
    while i < n
        invariant
            i <= n,
            out@.len() == i,
            forall|j: int| 0 <= j < i ==> #[trigger] out@[j] == SCALE,
        decreases n - i,
    {
        out.push(SCALE);
        i = i + 1;
    }
    out
}


/// Format one optional measure in micro-units; undefined measures render as
/// the empty string, values beyond the narrow machine range saturate at it.
fn measure_text(v: Option<i128>) -> (r: String)
    ensures
        v is None ==> r@ == Seq::<char>::empty(),
        (match v {
            Some(x) => -0x8000_0000_0000_0000 <= x <= 0x7fff_ffff_ffff_ffff ==> r@
                == crate::text::fx_chars(x as int),
            None => true,
        }),
{
    match v {
        Some(x) => {
            let narrow: i64 = if x < -0x8000_0000_0000_0000i128 {
                i64::MIN
            } else if x > 0x7fff_ffff_ffff_ffffi128 {
                i64::MAX
            } else {
                x as i64
            };
            crate::text::fx_to_text(narrow)
        },
        None => String::new(),
    }
}

impl Pipeline {
    /// One statistics block: a column of the group name, a column of the
    /// measure names, then one column per displayed header holding the
    /// measures of that column (over the selected rows, or all rows), empty
    /// for text columns.
    pub fn statistics_table(&self, group_name: &str, selection: Option<&BitVector>) -> (r: Vec<
        Vec<String>,
    >)
        requires
            self.wf(),
        ensures
            r@.len() == 2 + self.point_data.headers@.len(),
            r@[0]@.len() == 8,
            forall|k: int| 0 <= k < 8 ==> (#[trigger] r@[0]@[k])@ == group_name@,
            r@[1]@.len() == 8,
            r@[1]@[0]@ == "Count"@,
            r@[1]@[3]@ == "Mean"@,
            forall|c: int| 0 <= c < self.point_data.headers@.len() ==> (#[trigger] r@[2 + c])@.len()
                == 8,
            forall|c: int| #![trigger r@[2 + c]]
                0 <= c < self.point_data.headers@.len() ==> stats_row_ok(
                    *self,
                    match selection {
                        Some(bv) => Some(*bv),
                        None => None,
                    },
                    self.point_data.headers@[c]@,
                    r@[2 + c]@,
                ),
            stats_table_ok(
                *self,
                match selection {
                    Some(bv) => Some(*bv),
                    None => None,
                },
                group_name@,
                r@,
            ),
    {
        let mut table: Vec<Vec<String>> = Vec::new();
        let weights = self.weights_vec();
        proof {
            assert(weights@ =~= spec_weights(*self));
        }
        let names = crate::measures::NumericStatistics::all_measure_names();
        let mut group_row: Vec<String> = Vec::new();
        let mut g: usize = 0;
        while g < 8
            invariant
                g <= 8,
                group_row@.len() == g,
                forall|k: int| 0 <= k < g ==> (#[trigger] group_row@[k])@ == group_name@,
            decreases 8 - g,
        {
            group_row.push(group_name.to_owned());
            g = g + 1;
        }
        table.push(group_row);
        let mut name_row: Vec<String> = Vec::new();
        let mut m: usize = 0;
        while m < names.len()
            invariant
                m <= names@.len(),
                names@.len() == 8,
                name_row@.len() == m,
                forall|k: int| 0 <= k < m ==> (#[trigger] name_row@[k])@ == names@[k]@,
            decreases names@.len() - m,
        {
            name_row.push(names[m].to_owned());
            m = m + 1;
        }
        table.push(name_row);
        let sel_rows: Option<Vec<usize>> = match selection {
            Some(bv) => Some(bounded_rows(bv, self.point_data.len())),
            None => None,
        };
        let mut c: usize = 0;
        while c < self.point_data.headers.len()
            invariant
                c <= self.point_data.headers@.len(),
                self.wf(),
                weights@.len() == self.point_data.length,
                forall|k: int| #![trigger weights@[k]]
                    0 <= k < weights@.len() ==> 0 <= weights@[k] <= VAL_MAX,
                weights@ == spec_weights(*self),
                (match sel_rows {
                    Some(rows) => rows@.len() <= self.point_data.length,
                    None => true,
                }),
                (match (selection, sel_rows) {
                    (Some(bv), Some(rows)) => selection_rows(
                        rows@,
                        bv_set(*bv),
                        self.point_data.length as int,
                    ),
                    (None, None) => true,
                    _ => false,
                }),
                table@.len() == 2 + c,
                table@[0]@.len() == 8,
                forall|k: int| 0 <= k < 8 ==> (#[trigger] table@[0]@[k])@ == group_name@,
                table@[1]@.len() == 8,
                table@[1]@[0]@ == "Count"@,
                table@[1]@[3]@ == "Mean"@,
                forall|j: int| 0 <= j < c ==> (#[trigger] table@[2 + j])@.len() == 8,
                forall|j: int| #![trigger table@[2 + j]]
                    0 <= j < c ==> stats_row_ok(
                        *self,
                        match selection {
                            Some(bv) => Some(*bv),
                            None => None,
                        },
                        self.point_data.headers@[j]@,
                        table@[2 + j]@,
                    ),
            decreases self.point_data.headers@.len() - c,
        {
            let header = &self.point_data.headers[c];
            let row: Vec<String> = match self.point_data.data_column(header.as_str()) {
                Some(vals) => {
                    proof {
                        let cidx = crate::pointdata::name_idx(
                            self.point_data.data_names@,
                            header@,
                        );
                        assert(self.point_data.has_data(header@));
                        assert(0 <= cidx < self.point_data.data_columns@.len());
                        assert(forall|k: int|
                            0 <= k < self.point_data.length ==> fits_val(
                                #[trigger] self.point_data.data_columns@[cidx]@[k],
                            ));
                        assert(forall|k: int|
                            0 <= k < vals@.len() ==> fits_val(#[trigger] vals@[k]));
                    }
                    let mut stat = crate::measures::NumericStatistics::new();
                    match &sel_rows {
                        Some(rows) => {
                            stat.add_weighted_selection(vals, &weights, rows);
                            proof {
                                assert(stat.holds_samples(
                                    crate::measures::selected(
                                        self.point_data.data_at(header@),
                                        spec_weights(*self),
                                        rows@,
                                    ),
                                ));
                            }
                        },
                        None => {
                            stat.add_weighted(vals, &weights);
                            proof {
                                assert(crate::measures::zipped(vals@, weights@)
                                    =~= crate::measures::zipped(
                                    self.point_data.data_at(header@),
                                    spec_weights(*self),
                                ));
                                assert(stat.holds_samples(
                                    crate::measures::zipped(
                                        self.point_data.data_at(header@),
                                        spec_weights(*self),
                                    ),
                                ));
                            }
                        },
                    }
                    measure_values(&stat)
                },
                None => {
                    let mut empty_row: Vec<String> = Vec::new();
                    let mut e: usize = 0;
                    while e < 8
                        invariant
                            e <= 8,
                            empty_row@.len() == e,
                            forall|m: int|
                                0 <= m < e ==> (#[trigger] empty_row@[m])@
                                    == Seq::<char>::empty(),
                        decreases 8 - e,
                    {
                        empty_row.push(String::new());
                        e = e + 1;
                    }
                    empty_row
                },
            };
            let ghost prev_table = table@;
            table.push(row);
            proof {
                assert(stats_row_ok(
                    *self,
                    match selection {
                        Some(bv) => Some(*bv),
                        None => None,
                    },
                    self.point_data.headers@[c as int]@,
                    row@,
                ));
                assert forall|j: int| 0 <= j < c + 1 implies stats_row_ok(
                    *self,
                    match selection {
                        Some(bv) => Some(*bv),
                        None => None,
                    },
                    self.point_data.headers@[j]@,
                    #[trigger] table@[2 + j]@,
                ) by {
                    if j < c {
                        assert(table@[2 + j] == prev_table[2 + j]);
                    } else {
                        assert(table@[2 + j] == row);
                    }
                };
            }
            c = c + 1;
        }
        table
    }

    /// The statistics panel for a cursor position: a header row; a "Selected"
    /// row rendering the hit row's cells when the cursor resolves to a probe
    /// cell; then the whole-table block and, when any row is highlighted, the
    /// highlighted and non-highlighted blocks, each transposed to eight
    /// measure-major rows.
    #[verifier::rlimit(100)]
    #[verifier::spinoff_prover]
    pub fn statistics(&self, x: i64, y: i64) -> (r: Vec<Vec<String>>)
        requires
            self.wf(),
        ensures
            r@.len() >= 1,
            r@[0]@.len() == 2 + self.point_data.headers@.len(),
            r@[0]@[0]@ == Seq::<char>::empty(),
            r@[0]@[1]@ == Seq::<char>::empty(),
            forall|h: int| #![trigger r@[0]@[2 + h]]
                0 <= h < self.point_data.headers@.len() ==> r@[0]@[2 + h]@
                    == self.point_data.headers@[h]@,
            statistics_panel_ok(*self, x as int, y as int, r@),
    {
        let mut data: Vec<Vec<String>> = Vec::new();
        let mut row: Vec<String> = Vec::new();
        row.push(String::new());
        row.push(String::new());
        let mut h: usize = 0;
        while h < self.point_data.headers.len()
            invariant
                h <= self.point_data.headers@.len(),
                row@.len() == 2 + h,
                row@[0]@ == Seq::<char>::empty(),
                row@[1]@ == Seq::<char>::empty(),
                forall|j: int| #![trigger row@[2 + j]]
                    0 <= j < h ==> row@[2 + j]@ == self.point_data.headers@[j]@,
            decreases self.point_data.headers@.len() - h,
        {
            row.push(self.point_data.headers[h].clone());
            h = h + 1;
        }
        let ghost first_row = row@;
        data.push(row);
        if x >= 0 && y >= 0 {
            proof {
                assert(0 <= (x as int) * (self.mesh.width as int)
                    <= 0x7fffffffffffffff * 0xffffffffffffffff) by (nonlinear_arith)
                    requires
                        0 <= x <= 0x7fffffffffffffff,
                        0 <= self.mesh.width <= 0xffffffffffffffff,
                ;
                assert(0 <= (y as int) * (self.mesh.height as int)
                    <= 0x7fffffffffffffff * 0xffffffffffffffff) by (nonlinear_arith)
                    requires
                        0 <= y <= 0x7fffffffffffffff,
                        0 <= self.mesh.height <= 0xffffffffffffffff,
                ;
            }
            let xx128 = ((x as i128) * (self.mesh.width as i128)) / (SCALE as i128);
            let yy128 = ((y as i128) * (self.mesh.height as i128)) / (SCALE as i128);
            if xx128 < usize::MAX as i128 && yy128 < usize::MAX as i128 {
                let xx = xx128 as usize;
                let yy = yy128 as usize;
                let mut selected: Vec<String> = Vec::new();
                selected.push("Selected".to_owned());
                selected.push(String::new());
                match self.mesh.get_index_wide(xx, yy) {
                    Some(index) => {
                        let mut h2: usize = 0;
                        while h2 < self.point_data.headers.len()
                            invariant
                                h2 <= self.point_data.headers@.len(),
                                self.wf(),
                                selected@.len() == 2 + h2,
                                selected@[0]@ == "Selected"@,
                                selected@[1]@ == Seq::<char>::empty(),
                                self.mesh.wide_hit(xx128 as int, yy128 as int) == Some(index),
                                forall|j: int| #![trigger selected@[2 + j]]
                                    0 <= j < h2 ==> selected@[2 + j]@ == self.point_data.spec_get(
                                        self.point_data.headers@[j]@,
                                        index as int,
                                    ),
                            decreases self.point_data.headers@.len() - h2,
                        {
                            let cell = self.point_data.get(
                                self.point_data.headers[h2].as_str(),
                                index,
                            );
                            selected.push(cell);
                            h2 = h2 + 1;
                        }
                    },
                    None => {
                        let mut h2: usize = 0;
                        while h2 < self.point_data.headers.len()
                            invariant
                                h2 <= self.point_data.headers@.len(),
                                selected@.len() == 2 + h2,
                                selected@[0]@ == "Selected"@,
                                selected@[1]@ == Seq::<char>::empty(),
                                self.mesh.wide_hit(xx128 as int, yy128 as int) is None,
                                forall|j: int| #![trigger selected@[2 + j]]
                                    0 <= j < h2 ==> selected@[2 + j]@ == Seq::<char>::empty(),
                            decreases self.point_data.headers@.len() - h2,
                        {
                            selected.push(String::new());
                            h2 = h2 + 1;
                        }
                    },
                }
                proof {
                    assert(selected_row_ok(*self, x as int, y as int, selected@));
                }
                data.push(selected);
            }
        }
        let ghost prefix = data@;
        let ghost base_g: int = data@.len() as int;
        proof {
            assert(base_g == (if cursor_sel_present(*self, x as int, y as int) {
                2int
            } else {
                1int
            }));
        }
        let all_tbl = self.statistics_table(ALL, None);
        let ghost gt_all = all_tbl@;
        let all_block = all_tbl.transpose();
        let mut b: usize = 0;
        while b < all_block.len()
            invariant
                b <= all_block@.len(),
                all_block@.len() == 8,
                forall|m: int| 0 <= m < 8 ==> (#[trigger] all_block@[m])@.len() == gt_all.len(),
                data@.len() == base_g + b,
                base_g == prefix.len(),
                forall|k: int| 0 <= k < base_g ==> #[trigger] data@[k] == prefix[k],
                forall|m: int| 0 <= m < b ==> (#[trigger] data@[base_g + m])@ == all_block@[m]@,
            decreases all_block@.len() - b,
        {
            let ghost before = data@;
            data.push(all_block[b].clone_row());
            proof {
                assert(forall|k: int| 0 <= k < before.len() ==> #[trigger] data@[k] == before[k]);
            }
            b = b + 1;
        }
        let ghost all_rows_g = data@.subrange(base_g, base_g + 8);
        proof {
            assert forall|m: int| 0 <= m < 8 implies (#[trigger] all_rows_g[m])@
                == all_block@[m]@ by {
                assert(all_rows_g[m] == data@[base_g + m]);
            };
            lemma_block_rows(
                *self,
                None::<BitVector>,
                "All"@,
                gt_all,
                all_block@,
                all_rows_g,
            );
        }
        if !crate::bitset::bv_is_empty(&self.highlights) {
            let hi_tbl = self.statistics_table(HIGHLIGHTED, Some(&self.highlights));
            let ghost gt_hi = hi_tbl@;
            let hi_block = hi_tbl.transpose();
            let mut b2: usize = 0;
            while b2 < hi_block.len()
                invariant
                    b2 <= hi_block@.len(),
                    hi_block@.len() == 8,
                    forall|m: int| 0 <= m < 8 ==> (#[trigger] hi_block@[m])@.len() == gt_hi.len(),
                    data@.len() == base_g + 8 + b2,
                    base_g == prefix.len(),
                    forall|k: int| 0 <= k < base_g ==> #[trigger] data@[k] == prefix[k],
                    data@.subrange(base_g, base_g + 8) == all_rows_g,
                    forall|m: int|
                        0 <= m < b2 ==> (#[trigger] data@[base_g + 8 + m])@ == hi_block@[m]@,
                decreases hi_block@.len() - b2,
            {
                let ghost before = data@;
                data.push(hi_block[b2].clone_row());
                proof {
                    assert(forall|k: int|
                        0 <= k < before.len() ==> #[trigger] data@[k] == before[k]);
                    assert(data@.subrange(base_g, base_g + 8) =~= before.subrange(
                        base_g,
                        base_g + 8,
                    ));
                }
                b2 = b2 + 1;
            }
            let ghost hi_rows_g = data@.subrange(base_g + 8, base_g + 16);
            proof {
                assert forall|m: int| 0 <= m < 8 implies (#[trigger] hi_rows_g[m])@
                    == hi_block@[m]@ by {
                    assert(hi_rows_g[m] == data@[base_g + 8 + m]);
                };
                lemma_block_rows(
                    *self,
                    Some(self.highlights),
                    "Highlighted"@,
                    gt_hi,
                    hi_block@,
                    hi_rows_g,
                );
            }
            let others = self.non_highlighted();
            let lo_tbl = self.statistics_table(NON_HIGHLIGHTED, Some(&others));
            let ghost gt_lo = lo_tbl@;
            let lo_block = lo_tbl.transpose();
            let mut b3: usize = 0;
            while b3 < lo_block.len()
                invariant
                    b3 <= lo_block@.len(),
                    lo_block@.len() == 8,
                    forall|m: int| 0 <= m < 8 ==> (#[trigger] lo_block@[m])@.len() == gt_lo.len(),
                    data@.len() == base_g + 16 + b3,
                    base_g == prefix.len(),
                    forall|k: int| 0 <= k < base_g ==> #[trigger] data@[k] == prefix[k],
                    data@.subrange(base_g, base_g + 8) == all_rows_g,
                    data@.subrange(base_g + 8, base_g + 16) == hi_rows_g,
                    forall|m: int|
                        0 <= m < b3 ==> (#[trigger] data@[base_g + 16 + m])@ == lo_block@[m]@,
                decreases lo_block@.len() - b3,
            {
                let ghost before = data@;
                data.push(lo_block[b3].clone_row());
                proof {
                    assert(forall|k: int|
                        0 <= k < before.len() ==> #[trigger] data@[k] == before[k]);
                    assert(data@.subrange(base_g, base_g + 8) =~= before.subrange(
                        base_g,
                        base_g + 8,
                    ));
                    assert(data@.subrange(base_g + 8, base_g + 16) =~= before.subrange(
                        base_g + 8,
                        base_g + 16,
                    ));
                }
                b3 = b3 + 1;
            }
            proof {
                let lo_rows_g = data@.subrange(base_g + 16, base_g + 24);
                assert forall|m: int| 0 <= m < 8 implies (#[trigger] lo_rows_g[m])@
                    == lo_block@[m]@ by {
                    assert(lo_rows_g[m] == data@[base_g + 16 + m]);
                };
                lemma_block_rows(
                    *self,
                    Some(others),
                    "Non-Highlighted"@,
                    gt_lo,
                    lo_block@,
                    lo_rows_g,
                );
                assert(complement_block_ok(*self, lo_rows_g));
                assert(data@.subrange(base_g, base_g + 8) == all_rows_g);
                assert(data@.subrange(base_g + 8, base_g + 16) == hi_rows_g);
            }
        }
        proof {
            lemma_panel_assemble(*self, x as int, y as int, base_g, data@);
        }
        data
    }

    /// The complement of the highlight selection over the rows.
    fn non_highlighted(&self) -> (r: BitVector)
        requires
            self.wf(),
        ensures
            bv_set(r) =~= Set::new(
                |i: usize| (i as int) < self.point_data.length && !bv_set(
                    self.highlights,
                ).contains(i),
            ),
    {
        let n = self.point_data.len();
        let mut out = bv_new(n);
        let mut i: usize = 0;
        while i < n
            invariant
                i <= n,
                n == self.point_data.length,
                n <= ROWS_MAX,
                bv_cap(out) == word_rounded(n as nat),
                bv_set(out) =~= Set::new(
                    |k: usize| (k as int) < i && !bv_set(self.highlights).contains(k),
                ),
            decreases n - i,
        {
            if !bv_contains(&self.highlights, i) {
                proof {
                    assert((i as nat) < word_rounded(n as nat)) by {
                        assert(n <= ((n + 63) / 64) * 64) by (nonlinear_arith);
                    };
                }
                bv_insert(&mut out, i);
            }
            proof {
                assert(bv_set(out) =~= Set::new(
                    |k: usize| (k as int) < i + 1 && !bv_set(self.highlights).contains(k),
                ));
            }
            i = i + 1;
        }
        out
    }
}

/// The per-row weights, as the weight column and the default prescribe.
pub open spec fn spec_weights(p: Pipeline) -> Seq<i64> {
    Seq::new(p.point_data.length as nat, |i: int| p.spec_weight(i) as i64)
}

/// One statistics-table row is right for its column: a numeric column's row
/// renders the measures of an accumulator holding exactly that column's
/// samples (all rows, or the selected rows); any other column's row is eight
/// empty cells.
pub open spec fn stats_row_ok(
    p: Pipeline,
    sel: Option<BitVector>,
    header: Seq<char>,
    row: Seq<String>,
) -> bool {
    if p.point_data.has_data(header) {
        match sel {
            None => exists|st: crate::measures::NumericStatistics|
                st.wf() && #[trigger] st.holds_samples(
                    crate::measures::zipped(p.point_data.data_at(header), spec_weights(p)),
                ) && measures_row(st, row),
            Some(bv) => exists|st: crate::measures::NumericStatistics, rows: Seq<usize>|
                st.wf() && selection_rows(rows, bv_set(bv), p.point_data.length as int)
                    && #[trigger] st.holds_samples(
                    crate::measures::selected(p.point_data.data_at(header), spec_weights(p), rows),
                ) && measures_row(st, row),
        }
    } else {
        row.len() == 8 && forall|m: int|
            0 <= m < row.len() ==> (#[trigger] row[m])@ == Seq::<char>::empty()
    }
}

/// Assembles the statistics panel's layout from its parts.
proof fn lemma_panel_assemble(p: Pipeline, x: int, y: int, base: int, r: Seq<Vec<String>>)
    requires
        base == (if cursor_sel_present(p, x, y) {
            2int
        } else {
            1
        }),
        r.len() == base + (if has_highlight(p) {
            24int
        } else {
            8
        }),
        cursor_sel_present(p, x, y) ==> selected_row_ok(p, x, y, r[1]@),
        block_rows_ok(p, None::<BitVector>, "All"@, r.subrange(base, base + 8)),
        has_highlight(p) ==> block_rows_ok(
            p,
            Some(p.highlights),
            "Highlighted"@,
            r.subrange(base + 8, base + 16),
        ),
        has_highlight(p) ==> complement_block_ok(p, r.subrange(base + 16, base + 24)),
    ensures
        statistics_panel_ok(p, x, y, r),
{
}

/// Eight panel rows carry a statistics-table block over the complement of
/// the highlight selection.
pub open spec fn complement_block_ok(p: Pipeline, rows: Seq<Vec<String>>) -> bool {
    exists|cbv: BitVector|
        (bv_set(cbv) =~= Set::new(
            |i: usize| (i as int) < p.point_data.length && !bv_set(p.highlights).contains(i),
        )) && #[trigger] block_rows_ok(p, Some(cbv), "Non-Highlighted"@, rows)
}

/// The statistics panel's layout: an optional "Selected" row after the
/// header, then the transposed whole-table block and, when any row is
/// highlighted, the highlighted block and the block over the complement of
/// the highlight selection.
pub open spec fn statistics_panel_ok(p: Pipeline, x: int, y: int, r: Seq<Vec<String>>) -> bool {
    let base: int = if cursor_sel_present(p, x, y) {
        2
    } else {
        1
    };
    &&& r.len() == base + (if has_highlight(p) {
        24int
    } else {
        8
    })
    &&& (cursor_sel_present(p, x, y) ==> selected_row_ok(p, x, y, r[1]@))
    &&& block_rows_ok(p, None::<BitVector>, "All"@, r.subrange(base, base + 8))
    &&& (has_highlight(p) ==> block_rows_ok(
        p,
        Some(p.highlights),
        "Highlighted"@,
        r.subrange(base + 8, base + 16),
    ))
    &&& (has_highlight(p) ==> complement_block_ok(p, r.subrange(base + 16, base + 24)))
}

/// A statistics-table block is right for its group and selection: the group
/// row, the measure-name row, then one exact measures row per displayed
/// column.
pub open spec fn stats_table_ok(
    p: Pipeline,
    sel: Option<BitVector>,
    group: Seq<char>,
    tbl: Seq<Vec<String>>,
) -> bool {
    &&& tbl.len() == 2 + p.point_data.headers@.len()
    &&& tbl[0]@.len() == 8
    &&& forall|k: int| 0 <= k < 8 ==> (#[trigger] tbl[0]@[k])@ == group
    &&& tbl[1]@.len() == 8
    &&& tbl[1]@[0]@ == "Count"@
    &&& tbl[1]@[3]@ == "Mean"@
    &&& forall|c: int| 0 <= c < p.point_data.headers@.len() ==> (#[trigger] tbl[2 + c])@.len() == 8
    &&& forall|c: int| #![trigger tbl[2 + c]]
        0 <= c < p.point_data.headers@.len() ==> stats_row_ok(
            p,
            sel,
            p.point_data.headers@[c]@,
            tbl[2 + c]@,
        )
}

/// Eight panel rows carry, transposed, a statistics-table block for the group
/// and selection: row `m`, column `c` holds the block's measure `m` of table
/// column `c`.
pub open spec fn block_rows_ok(
    p: Pipeline,
    sel: Option<BitVector>,
    group: Seq<char>,
    rows: Seq<Vec<String>>,
) -> bool {
    exists|tbl: Seq<Vec<String>>|
        #[trigger] stats_table_ok(p, sel, group, tbl) && rows.len() == 8 && forall|m: int, c: int|
            #![trigger rows[m]@[c]]
            0 <= m < 8 && 0 <= c < tbl.len() ==> rows[m]@.len() == tbl.len() && rows[m]@[c]@
                == tbl[c]@[m]@
}

/// Whether the cursor resolves to a probe cell: nonnegative coordinates whose
/// scaled cell indices stay within the machine range.
pub open spec fn cursor_sel_present(p: Pipeline, x: int, y: int) -> bool {
    &&& x >= 0
    &&& y >= 0
    &&& (x * p.mesh.width) / (SCALE as int) < usize::MAX
    &&& (y * p.mesh.height) / (SCALE as int) < usize::MAX
}

/// The panel's "Selected" row: the label, an empty cell, then the hit row's
/// rendered cells per displayed column, or empty cells when the wide probe
/// finds nothing.
pub open spec fn selected_row_ok(p: Pipeline, x: int, y: int, row: Seq<String>) -> bool {
    let xx = (x * p.mesh.width) / (SCALE as int);
    let yy = (y * p.mesh.height) / (SCALE as int);
    &&& row.len() == 2 + p.point_data.headers@.len()
    &&& row[0]@ == "Selected"@
    &&& row[1]@ == Seq::<char>::empty()
    &&& forall|h: int| #![trigger row[2 + h]]
        0 <= h < p.point_data.headers@.len() ==> row[2 + h]@ == (match p.mesh.wide_hit(xx, yy) {
            Some(idx) => p.point_data.spec_get(p.point_data.headers@[h]@, idx as int),
            None => Seq::<char>::empty(),
        })
}

/// Some row is highlighted.
pub open spec fn has_highlight(p: Pipeline) -> bool {
    exists|i: usize| bv_set(p.highlights).contains(i)
}

/// One statistics row renders the accumulator's measures, in table order:
/// count, minimum, maximum, mean, variance, standard deviation, skewness,
/// kurtosis; undefined measures render empty, and the two wide measures
/// render exactly whenever they fit the narrow machine range.
pub open spec fn measures_row(st: crate::measures::NumericStatistics, row: Seq<String>) -> bool {
    &&& row.len() == 8
    &&& row[0]@ == crate::text::dec_chars(st.count as nat)
    &&& (match st.minimum {
        Some(mn) => row[1]@ == crate::text::fx_chars(mn as int),
        None => row[1]@ == Seq::<char>::empty(),
    })
    &&& (match st.maximum {
        Some(mx) => row[2]@ == crate::text::fx_chars(mx as int),
        None => row[2]@ == Seq::<char>::empty(),
    })
    &&& (st.sum_of_weights != 0 ==> row[3]@ == crate::text::fx_chars(st.spec_mean()) && row[4]@
        == crate::text::fx_chars(st.spec_variance()) && row[5]@ == crate::text::fx_chars(
        st.spec_stddev(),
    ))
    &&& (st.sum_of_weights == 0 ==> row[3]@ == Seq::<char>::empty() && row[4]@
        == Seq::<char>::empty() && row[5]@ == Seq::<char>::empty())
    &&& ((st.sum_of_weights == 0 || st.spec_stddev() == 0) ==> row[6]@ == Seq::<char>::empty())
    &&& (st.sum_of_weights != 0 && st.spec_stddev() != 0 && -0x8000_0000_0000_0000
        <= st.spec_skewness() <= 0x7fff_ffff_ffff_ffff ==> row[6]@ == crate::text::fx_chars(
        st.spec_skewness(),
    ))
    &&& ((st.sum_of_weights == 0 || st.spec_variance() == 0) ==> row[7]@ == Seq::<char>::empty())
    &&& (st.sum_of_weights != 0 && st.spec_variance() != 0 && -0x8000_0000_0000_0000
        <= st.spec_kurtosis() <= 0x7fff_ffff_ffff_ffff ==> row[7]@ == crate::text::fx_chars(
        st.spec_kurtosis(),
    ))
}

/// Rows copied from a transposed statistics table carry the block.
proof fn lemma_block_rows(
    p: Pipeline,
    sel: Option<BitVector>,
    group: Seq<char>,
    tbl: Seq<Vec<String>>,
    block: Seq<Vec<String>>,
    rows: Seq<Vec<String>>,
)
    requires
        stats_table_ok(p, sel, group, tbl),
        block.len() == 8,
        rows.len() == 8,
        forall|m: int| 0 <= m < 8 ==> (#[trigger] block[m])@.len() == tbl.len(),
        forall|m: int, c: int|
            #![trigger block[m]@[c]]
            0 <= m < 8 && 0 <= c < tbl.len() && m < tbl[c]@.len() ==> block[m]@[c]@ == tbl[c]@[m]@,
        forall|m: int| 0 <= m < 8 ==> (#[trigger] rows[m])@ == block[m]@,
    ensures
        block_rows_ok(p, sel, group, rows),
{
    assert forall|m: int, c: int| #![trigger rows[m]@[c]]
        0 <= m < 8 && 0 <= c < tbl.len() implies rows[m]@.len() == tbl.len() && rows[m]@[c]@
        == tbl[c]@[m]@ by {
        assert(tbl[c]@.len() == 8) by {
            if c == 0 || c == 1 {
            } else {
                assert(tbl[2 + (c - 2)]@.len() == 8);
            }
        };
        assert(block[m]@[c]@ == tbl[c]@[m]@);
        assert(rows[m]@[c] == block[m]@[c]);
    };
}

/// The formatted derived measures of an accumulator, in table order.
fn measure_values(stat: &crate::measures::NumericStatistics) -> (r: Vec<String>)
    requires
        stat.wf(),
    ensures
        measures_row(*stat, r@),
        r@.len() == 8,
{
    let mut out: Vec<String> = Vec::new();
    out.push(crate::text::u64_to_string(stat.count));
    match stat.minimum {
        Some(mn) => out.push(crate::text::fx_to_text(mn)),
        None => out.push(String::new()),
    }
    match stat.maximum {
        Some(mx) => out.push(crate::text::fx_to_text(mx)),
        None => out.push(String::new()),
    }
    match stat.mean() {
        Some(v) => out.push(crate::text::fx_to_text(v)),
        None => out.push(String::new()),
    }
    match stat.variance() {
        Some(v) => out.push(crate::text::fx_to_text(v)),
        None => out.push(String::new()),
    }
    match stat.stddev() {
        Some(v) => out.push(crate::text::fx_to_text(v)),
        None => out.push(String::new()),
    }
    out.push(measure_text(stat.skewness()));
    out.push(measure_text(stat.kurtosis()));
    out
}

/// The row indices a selection picks out of `n` rows: exactly the selected
/// indices below `n`, in increasing order.
pub open spec fn selection_rows(rows: Seq<usize>, sel: Set<usize>, n: int) -> bool {
    &&& forall|a: int, b: int| 0 <= a < b < rows.len() ==> rows[a] < rows[b]
    &&& forall|k: int| 0 <= k < rows.len() ==> sel.contains(#[trigger] rows[k]) && (rows[k] as int)
        < n
    &&& forall|i: usize| sel.contains(i) && (i as int) < n ==> rows.contains(i)
}

/// The selected rows below the row count, in increasing order.
fn bounded_rows(bv: &BitVector, n: usize) -> (r: Vec<usize>)
    ensures
        r@.len() <= n,
        forall|k: int| 0 <= k < r@.len() ==> (#[trigger] r@[k]) < n,
        selection_rows(r@, bv_set(*bv), n as int),
{
    let all = bv_to_vec(bv);
    let mut out: Vec<usize> = Vec::new();
    let mut k: usize = 0;
    while k < all.len()
        invariant
            k <= all@.len(),
            forall|a: int, b: int| 0 <= a < b < all@.len() ==> all@[a] < all@[b],
            forall|j: int| 0 <= j < all@.len() ==> bv_set(*bv).contains(#[trigger] all@[j]),
            out@.len() <= n,
            forall|j: int| 0 <= j < out@.len() ==> (#[trigger] out@[j]) < n && bv_set(
                *bv,
            ).contains(out@[j]),
            forall|a: int, b: int| 0 <= a < b < out@.len() ==> out@[a] < out@[b],
            out@.len() > 0 ==> exists|a: int|
                0 <= a < k && all@[a] == out@[out@.len() - 1],
            forall|j: int|
                0 <= j < k && (all@[j] as int) < n ==> out@.contains(#[trigger] all@[j]),
        decreases all@.len() - k,
    {
        let ghost out_before = out@;
        let row = all[k];
        if row < n {
            let ghost before = out@;
            proof {
                if before.len() > 0 {
                    let a = choose|a: int| 0 <= a < k && all@[a] == before[before.len() - 1];
                    assert(all@[a] < all@[k as int]);
                }
            }
            out.push(row);
            proof {
                assert forall|j: int| 0 <= j < k + 1 && (all@[j] as int) < n implies out@.contains(
                    #[trigger] all@[j],
                ) by {
                    if j < k {
                        let a = choose|a: int| 0 <= a < out_before.len() && out_before[a] == all@[j];
                        assert(out@[a] == all@[j]);
                    } else {
                        assert(out@[out@.len() - 1] == all@[j]);
                    }
                };
                assert(forall|a: int, b: int|
                    0 <= a < b < out@.len() ==> #[trigger] out@[a] < #[trigger] out@[b]) by {
                    assert forall|a: int, b: int| 0 <= a < b < out@.len() implies #[trigger] out@[a]
                        < #[trigger] out@[b] by {
                        if b < out@.len() - 1 {
                            assert(out@[a] == before[a] && out@[b] == before[b]);
                        } else {
                            assert(out@[b] == row);
                            if a < out@.len() - 1 {
                                assert(out@[a] == before[a]);
                                if a < before.len() - 1 {
                                    assert(before[a] < before[before.len() - 1]);
                                }
                            }
                        }
                    };
                };
                lemma_increasing_bound(out@, n as int);
                assert(all@[k as int] == out@[out@.len() - 1]);
            }
        }
        k = k + 1;
    }
    proof {
        lemma_increasing_bound(out@, n as int);
        assert forall|i: usize| bv_set(*bv).contains(i) && (i as int) < n implies out@.contains(
            i,
        ) by {
            assert(all@.contains(i));
            let j = choose|j: int| 0 <= j < all@.len() && all@[j] == i;
        };
    }
    out
}

/// A strictly increasing list of indices below `n` has at most `n` entries.
proof fn lemma_increasing_bound(s: Seq<usize>, n: int)
    requires
        forall|a: int, b: int| 0 <= a < b < s.len() ==> s[a] < s[b],
        forall|k: int| 0 <= k < s.len() ==> (#[trigger] s[k]) < n,
        0 <= n,
    ensures
        s.len() <= n,
{
    if s.len() > n {
        lemma_index_at_least(s, n);
        assert(s[n] < n);
        assert(false);
    }
}

/// In a strictly increasing list of indices, the entry at position `k` is at
/// least `k`.
proof fn lemma_index_at_least(s: Seq<usize>, k: int)
    requires
        forall|a: int, b: int| 0 <= a < b < s.len() ==> s[a] < s[b],
        0 <= k < s.len(),
    ensures
        s[k] >= k,
    decreases k,
{
    if k > 0 {
        lemma_index_at_least(s, k - 1);
        assert(s[k - 1] < s[k]);
    }
}

/// A copy of a row of cells.
pub trait CloneRow {
    /// An identical copy.
    fn clone_row(&self) -> (r: Vec<String>);
}

impl CloneRow for Vec<String> {
    fn clone_row(&self) -> (r: Vec<String>)
        ensures
            r@ == self@,
    {
        clone_string_vec(self)
    }
}

} // verus!
