//! Record batches: a fixed schema plus one value column per field, all
//! columns of equal length. A flush of the shuffler concatenates a key's
//! buffered batches into a single batch — the "group" that the backing
//! store holds under one group id.

use vstd::prelude::*;
use crate::schema::{FieldModel, Schema};

verus! {

/// A batch of rows under a schema. Cell values are plain 64-bit words;
/// `columns[c][r]` is the value of column `c` in row `r`.
#[derive(Clone, Debug, PartialEq)]
pub struct Batch {
    pub schema: Schema,
    pub columns: Vec<Vec<u64>>,
    pub num_rows: usize,
}

/// Mathematical value of a `Batch`.
#[verifier::ext_equal]
pub ghost struct BatchModel {
    pub schema: Seq<FieldModel>,
    pub columns: Seq<Seq<u64>>,
    pub rows: nat,
}

impl View for Batch {
    type V = BatchModel;

    open spec fn view(&self) -> BatchModel {
        BatchModel {
            schema: self.schema@,
            columns: self.columns@.map_values(|c: Vec<u64>| c@),
            rows: self.num_rows as nat,
        }
    }
}

/// A structurally consistent batch: one column per field, every column as
/// long as the row count, and a row count a machine word can hold.
pub open spec fn batch_wf(b: BatchModel) -> bool {
    &&& b.columns.len() == b.schema.len()
    &&& forall|c: int| 0 <= c < b.columns.len() ==> (#[trigger] b.columns[c]).len() == b.rows
}

/// The views of a sequence of batches.
pub open spec fn batch_views(s: Seq<Batch>) -> Seq<BatchModel> {
    s.map_values(|b: Batch| b@)
}

/// Total row count of a sequence of batches.
pub open spec fn rows_of(s: Seq<BatchModel>) -> nat
    decreases s.len(),
{
    if s.len() == 0 {
        0
    } else {
        rows_of(s.drop_last()) + s.last().rows
    }
}

/// Column `c` of the concatenation of `batches`, in order.
pub open spec fn concat_col(batches: Seq<BatchModel>, c: int) -> Seq<u64>
    decreases batches.len(),
{
    if batches.len() == 0 {
        Seq::empty()
    } else {
        concat_col(batches.drop_last(), c) + batches.last().columns[c]
    }
}

/// The single batch a flush writes for a buffered sequence: per-column
/// concatenation, rows summed, schema kept.
pub open spec fn group_of(schema: Seq<FieldModel>, batches: Seq<BatchModel>) -> BatchModel {
    BatchModel {
        schema,
        columns: Seq::new(schema.len(), |c: int| concat_col(batches, c)),
        rows: rows_of(batches),
    }
}

/// A prefix never holds more rows than the whole sequence.
pub proof fn lemma_rows_of_take_le(s: Seq<BatchModel>, j: int)
    requires
        0 <= j <= s.len(),
    ensures
        rows_of(s.take(j)) <= rows_of(s),
    decreases s.len() - j,
{
    if j == s.len() {
        assert(s.take(j) =~= s);
    } else {
        lemma_rows_of_take_le(s, j + 1);
        assert(s.take(j + 1).drop_last() =~= s.take(j));
        assert(rows_of(s.take(j + 1)) == rows_of(s.take(j)) + s[j].rows);
    }
}

/// Unfolds `rows_of` one step at the end of a prefix.
pub proof fn lemma_rows_of_take_step(s: Seq<BatchModel>, j: int)
    requires
        0 <= j < s.len(),
    ensures
        rows_of(s.take(j + 1)) == rows_of(s.take(j)) + s[j].rows,
{
    assert(s.take(j + 1).drop_last() =~= s.take(j));
}

/// Unfolds `concat_col` one step at the end of a prefix.
pub proof fn lemma_concat_col_take_step(s: Seq<BatchModel>, c: int, j: int)
    requires
        0 <= j < s.len(),
    ensures
        concat_col(s.take(j + 1), c) == concat_col(s.take(j), c) + s[j].columns[c],
{
    assert(s.take(j + 1).drop_last() =~= s.take(j));
}

fn dup_column(c: &Vec<u64>) -> (r: Vec<u64>)
    ensures
        r@ == c@,
{
    let mut r: Vec<u64> = Vec::new();
    let n = c.len();
    let mut i: usize = 0;
    while i < n
        invariant
            n == c@.len(),
            i <= n,
            r@ == c@.take(i as int),
        decreases n - i,
    {
        r.push(c[i]);
        proof {
            assert(r@ =~= c@.take(i + 1));
        }
        i += 1;
    }
    proof {
        assert(c@.take(n as int) =~= c@);
    }
    r
}

impl Schema {
    /// A fresh schema with the same fields and metadata.
    pub fn duplicate(&self) -> (r: Schema)
        ensures
            r@ == self@,
    {
        let mut fields: Vec<crate::schema::Field> = Vec::new();
        let n = self.fields.len();
        let mut i: usize = 0;
        while i < n
            invariant
                n == self.fields@.len(),
                i <= n,
                fields@ == self.fields@.take(i as int),
            decreases n - i,
        {
            let f = &self.fields[i];
            fields.push(crate::schema::Field {
                name: f.name.clone(),
                column_type: f.column_type,
                nullable: f.nullable,
            });
            proof {
                assert(fields@ =~= self.fields@.take(i + 1));
            }
            i += 1;
        }
        let mut metadata: Vec<(String, String)> = Vec::new();
        let m = self.metadata.len();
        let mut j: usize = 0;
        while j < m
            invariant
                m == self.metadata@.len(),
                j <= m,
            decreases m - j,
        {
            let kv = &self.metadata[j];
            metadata.push((kv.0.clone(), kv.1.clone()));
            j += 1;
        }
        let r = Schema { fields, metadata };
        proof {
            assert(self.fields@.take(n as int) =~= self.fields@);
            assert(r@ =~= self@);
        }
        r
    }
}

impl Batch {
    /// Builds a batch, validating that the columns fit the schema: one
    /// column per field and all columns of one length. Returns `None`
    /// exactly when the shape is inconsistent.
    pub fn try_new(schema: Schema, columns: Vec<Vec<u64>>) -> (r: Option<Batch>)
        ensures
            r is Some <==> {
                &&& columns@.len() == schema@.len()
                &&& forall|c: int|
                    0 <= c < columns@.len() ==> (#[trigger] columns@[c])@.len()
                        == (if columns@.len() == 0 { 0int } else { columns@[0]@.len() as int })
            },
            r is Some ==> r.unwrap()@ == (BatchModel {
                schema: schema@,
                columns: columns@.map_values(|c: Vec<u64>| c@),
                rows: if columns@.len() == 0 { 0nat } else { columns@[0]@.len() },
            }),
            r is Some ==> batch_wf(r.unwrap()@),
    {
        if columns.len() != schema.fields.len() {
            proof {
                assert(schema@.len() == schema.fields@.len());
            }
            return None;
        }
        let num_rows: usize = if columns.len() == 0 {
            0
        } else {
            columns[0].len()
        };
        let n = columns.len();
        let mut c: usize = 0;
        while c < n
            invariant
                n == columns@.len(),
                c <= n,
                n > 0 ==> num_rows == columns@[0]@.len(),
                n == 0 ==> num_rows == 0,
                forall|k: int| 0 <= k < c ==> (#[trigger] columns@[k])@.len() == num_rows,
            decreases n - c,
        {
            if columns[c].len() != num_rows {
                return None;
            }
            c += 1;
        }
        let b = Batch { schema, columns, num_rows };
        proof {
            assert(b@.columns.len() == b@.schema.len());
            assert(forall|k: int|
                0 <= k < b@.columns.len() ==> (#[trigger] b@.columns[k]).len() == b@.rows);
        }
        Some(b)
    }

    /// Whether the batch is structurally consistent: one column per
    /// schema field, every column as long as the row count.
    pub fn is_consistent(&self) -> (r: bool)
        ensures
            r == batch_wf(self@),
    {
        if self.columns.len() != self.schema.fields.len() {
            proof {
                assert(self@.columns.len() != self@.schema.len());
            }
            return false;
        }
        let n = self.columns.len();
        let mut c: usize = 0;
        while c < n
            invariant
                n == self.columns@.len(),
                c <= n,
                forall|k: int| 0 <= k < c ==> (#[trigger] self.columns@[k])@.len()
                    == self.num_rows,
            decreases n - c,
        {
            if self.columns[c].len() != self.num_rows {
                proof {
                    assert((self@.columns[c as int]).len() != self@.rows);
                }
                return false;
            }
            c += 1;
        }
        proof {
            assert(forall|k: int|
                0 <= k < self@.columns.len() ==> (#[trigger] self@.columns[k]).len()
                    == self@.rows);
        }
        true
    }

    /// A fresh batch with the same content.
    pub fn duplicate(&self) -> (r: Batch)
        ensures
            r@ == self@,
    {
        let schema = self.schema.duplicate();
        let mut columns: Vec<Vec<u64>> = Vec::new();
        let n = self.columns.len();
        let mut c: usize = 0;
        while c < n
            invariant
                n == self.columns@.len(),
                c <= n,
                columns@.len() == c,
                forall|k: int| 0 <= k < c ==> (#[trigger] columns@[k])@ == self.columns@[k]@,
            decreases n - c,
        {
            columns.push(dup_column(&self.columns[c]));
            c += 1;
        }
        let r = Batch { schema, columns, num_rows: self.num_rows };
        proof {
            assert(r@.columns =~= self@.columns);
            assert(r@ =~= self@);
        }
        r
    }
}

/// Concatenates a non-empty buffered sequence of batches into the one
/// batch its flush writes: columns joined in buffer order, row counts
/// summed.
pub fn concat_batches(schema: &Schema, batches: &Vec<Batch>) -> (r: Batch)
    requires
        forall|j: int| 0 <= j < batches@.len() ==> batch_wf(#[trigger] batches@[j]@),
        forall|j: int| 0 <= j < batches@.len() ==> (#[trigger] batches@[j]@).schema == schema@,
        rows_of(batch_views(batches@)) <= usize::MAX,
    ensures
        r@ == group_of(schema@, batch_views(batches@)),
        batch_wf(r@),
{
    let ghost views = batch_views(batches@);
    let nb = batches.len();
    let mut num_rows: usize = 0;
    let mut j: usize = 0;
    while j < nb
        invariant
            nb == batches@.len(),
            views == batch_views(batches@),
            j <= nb,
            num_rows == rows_of(views.take(j as int)),
            rows_of(views) <= usize::MAX,
            forall|k: int| 0 <= k < nb ==> batch_wf(#[trigger] batches@[k]@),
        decreases nb - j,
    {
        proof {
            lemma_rows_of_take_step(views, j as int);
            lemma_rows_of_take_le(views, j + 1);
        }
        num_rows = num_rows + batches[j].num_rows;
        j += 1;
    }
    proof {
        assert(views.take(nb as int) =~= views);
    }
    let ncols = schema.fields.len();
    let mut columns: Vec<Vec<u64>> = Vec::new();
    let mut c: usize = 0;
    while c < ncols
        invariant
            ncols == schema.fields@.len(),
            nb == batches@.len(),
            views == batch_views(batches@),
            c <= ncols,
            columns@.len() == c,
            forall|k: int| 0 <= k < c ==> (#[trigger] columns@[k])@ == concat_col(views, k),
            forall|k: int| 0 <= k < nb ==> batch_wf(#[trigger] batches@[k]@),
            forall|k: int| 0 <= k < nb ==> (#[trigger] batches@[k]@).schema == schema@,
        decreases ncols - c,
    {
        let mut col: Vec<u64> = Vec::new();
        let mut j: usize = 0;
        while j < nb
            invariant
                ncols == schema.fields@.len(),
                nb == batches@.len(),
                views == batch_views(batches@),
                c < ncols,
                j <= nb,
                col@ == concat_col(views.take(j as int), c as int),
                forall|k: int| 0 <= k < nb ==> batch_wf(#[trigger] batches@[k]@),
                forall|k: int| 0 <= k < nb ==> (#[trigger] batches@[k]@).schema == schema@,
            decreases nb - j,
        {
            let b = &batches[j];
            proof {
                assert(b@.columns.len() == b@.schema.len());
                assert(b@.schema.len() == schema@.len());
                assert(schema@.len() == schema.fields@.len());
            }
            let bc = &b.columns[c];
            let m = bc.len();
            let mut k: usize = 0;
            while k < m
                invariant
                    m == bc@.len(),
                    k <= m,
                    col@ == concat_col(views.take(j as int), c as int) + bc@.take(k as int),
                    j < nb,
                    nb == batches@.len(),
                    views == batch_views(batches@),
                    bc@ == views[j as int].columns[c as int],
                decreases m - k,
            {
                col.push(bc[k]);
                proof {
                    assert(col@ =~= concat_col(views.take(j as int), c as int) + bc@.take(
                        k + 1,
                    ));
                }
                k += 1;
            }
            proof {
                assert(bc@.take(m as int) =~= bc@);
                lemma_concat_col_take_step(views, c as int, j as int);
                assert(col@ =~= concat_col(views.take(j + 1), c as int));
            }
            j += 1;
        }
        proof {
            assert(views.take(nb as int) =~= views);
        }
        columns.push(col);
        c += 1;
    }
    let r = Batch { schema: schema.duplicate(), columns, num_rows };
    proof {
        lemma_concat_wf(schema@, views);
        assert(r@.columns =~= group_of(schema@, views).columns);
        assert(r@ =~= group_of(schema@, views));
    }
    r
}

/// The concatenated group of well-formed, schema-conforming batches is
/// itself well formed.
pub proof fn lemma_concat_wf(schema: Seq<FieldModel>, views: Seq<BatchModel>)
    requires
        forall|j: int| 0 <= j < views.len() ==> batch_wf(#[trigger] views[j]),
        forall|j: int| 0 <= j < views.len() ==> (#[trigger] views[j]).schema == schema,
    ensures
        batch_wf(group_of(schema, views)),
        group_of(schema, views).schema == schema,
        group_of(schema, views).rows == rows_of(views),
    decreases views.len(),
{
    let g = group_of(schema, views);
    if views.len() == 0 {
        assert forall|c: int| 0 <= c < g.columns.len() implies (#[trigger] g.columns[c]).len()
            == g.rows by {
            assert(g.columns[c] == concat_col(views, c));
        }
    } else {
        let prefix = views.drop_last();
        let last = views.last();
        assert(prefix =~= views.take(views.len() - 1));
        lemma_rows_of_take_le(views, views.len() - 1);
        lemma_concat_wf(schema, prefix);
        let gp = group_of(schema, prefix);
        assert(batch_wf(last));
        assert forall|c: int| 0 <= c < g.columns.len() implies (#[trigger] g.columns[c]).len()
            == g.rows by {
            assert(g.columns[c] == concat_col(views, c));
            assert(gp.columns[c] == concat_col(prefix, c));
            assert(gp.columns[c].len() == gp.rows);
            assert(last.columns[c].len() == last.rows);
            assert(concat_col(views, c) == concat_col(prefix, c) + last.columns[c]);
        }
    }
}

} // verus!
