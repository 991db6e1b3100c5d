//! Dense grids as text.
use crate::geometry::product;
use crate::grid::{CellData, GridFlat};
use crate::text::{append_decimal, decimal};
use crate::topology::Topology3d;
use vstd::prelude::*;
use vstd::slice::slice_subrange;
use vstd::string::StringExecFns;

verus! {

/// First line of the text of a dense grid of extents `x`, `y` and `z`.
pub open spec fn title_line(x: int, y: int, z: int) -> Seq<char> {
    "GridFlat(["@ + decimal(x) + ", "@ + decimal(y) + ", "@ + decimal(z) + "])\n"@
}

/// Line above layer `z` of a dense grid of extents `x` and `y`.
pub open spec fn layer_line(x: int, y: int, z: int) -> Seq<char> {
    " {0.."@ + decimal(x) + " x 0.."@ + decimal(y) + " x "@ + decimal(z) + "}\n"@
}

/// The first `count` rows, one per line.
pub open spec fn row_lines(rows: Seq<String>, count: int) -> Seq<char>
    decreases count,
{
    if count <= 0 {
        Seq::empty()
    } else {
        row_lines(rows, count - 1) + " "@ + rows[count - 1]@ + "\n"@
    }
}

/// The first `count` layers, each with `y` rows.
pub open spec fn layer_lines(x: int, y: int, rows: Seq<String>, count: int) -> Seq<char>
    decreases count,
{
    if count <= 0 {
        Seq::empty()
    } else {
        layer_lines(x, y, rows, count - 1) + layer_line(x, y, count - 1) + row_lines(
            rows.subrange((count - 1) * y, count * y),
            y,
        )
    }
}

proof fn lemma_row_lines(rows: Seq<String>, more: Seq<String>, count: int)
    requires
        count <= rows.len() <= more.len(),
        forall|i: int| 0 <= i < count ==> #[trigger] rows[i] == more[i],
    ensures
        row_lines(rows, count) == row_lines(more, count),
    decreases count,
{
    if count > 0 {
        lemma_row_lines(rows, more, count - 1);
        assert(rows[count - 1] == more[count - 1]);
    }
}

proof fn lemma_layer_lines(x: int, y: int, rows: Seq<String>, more: Seq<String>, count: int)
    requires
        y >= 0,
        count * y <= rows.len() <= more.len(),
        forall|i: int| 0 <= i < rows.len() ==> #[trigger] rows[i] == more[i],
    ensures
        layer_lines(x, y, rows, count) == layer_lines(x, y, more, count),
    decreases count,
{
    if count > 0 {
        assert((count - 1) * y <= count * y) by (nonlinear_arith)
            requires
                y >= 0,
        ;
        assert(0 <= (count - 1) * y) by (nonlinear_arith)
            requires
                y >= 0,
                count >= 1,
        ;
        lemma_layer_lines(x, y, rows, more, count - 1);
        assert(rows.subrange((count - 1) * y, count * y) =~= more.subrange(
            (count - 1) * y,
            count * y,
        ));
    }
}

impl<T: CellData> GridFlat<T, Topology3d> {
    /// Row `k` of the grid, counted through all layers.
    pub open spec fn row(&self, k: int) -> Seq<T> {
        self.values().subrange(k * self.extents()[0], (k + 1) * self.extents()[0])
    }

    /// `text` is what `show` may render row `k` as.
    pub open spec fn shown_row<F: Fn(&[T]) -> String>(
        &self,
        show: F,
        k: int,
        text: String,
    ) -> bool {
        exists|row: &[T]| row@ == self.row(k) && #[trigger] call_ensures(show, (row,), text)
    }

    /// The grid as text: a title, then each layer with one line per row, in
    /// which the row appears as `show` renders it.
    pub fn to_text<F: Fn(&[T]) -> String>(&self, show: F) -> (text: String)
        requires
            self.wf(),
            forall|row: &[T]|
                row@.len() == self.extents()[0] ==> #[trigger] call_requires(show, (row,)),
        ensures
            exists|rows: Seq<String>|
                {
                    &&& rows.len() == self.extents()[1] * self.extents()[2]
                    &&& forall|k: int|
                        0 <= k < rows.len() ==> self.shown_row(show, k, #[trigger] rows[k])
                    &&& text@ == title_line(
                        self.extents()[0],
                        self.extents()[1],
                        self.extents()[2],
                    ) + #[trigger] layer_lines(
                        self.extents()[0],
                        self.extents()[1],
                        rows,
                        self.extents()[2],
                    )
                },
    {
        let size = self.size();
        let x = size[0];
        let y = size[1];
        let z = size[2];
        let fields = self.fields();
        let count = fields.len();
        let ghost title = title_line(x as int, y as int, z as int);
        let ghost mut rows: Seq<String> = Seq::empty();
        proof {
            lemma_total(self.extents());
        }
        let mut text = String::from_str("GridFlat([");
        append_decimal(&mut text, x);
        text.append(", ");
        append_decimal(&mut text, y);
        text.append(", ");
        append_decimal(&mut text, z);
        text.append("])\n");
        assert(text@ =~= title + layer_lines(x as int, y as int, rows, 0));
        let mut start: usize = 0;
        let mut layer: usize = 0;
        while layer < z
            invariant
                layer <= z,
                fields@ == self.values(),
                count == fields@.len() == x * (y * z),
                self.extents()[0] == x,
                forall|row: &[T]| row@.len() == x ==> #[trigger] call_requires(show, (row,)),
                rows.len() == layer * y,
                start == rows.len() * x,
                forall|k: int|
                    0 <= k < rows.len() ==> self.shown_row(show, k, #[trigger] rows[k]),
                text@ == title + layer_lines(x as int, y as int, rows, layer as int),
            decreases z - layer,
        {
            let ghost above = rows;
            let ghost head = text@;
            text.append(" {0..");
            append_decimal(&mut text, x);
            text.append(" x 0..");
            append_decimal(&mut text, y);
            text.append(" x ");
            append_decimal(&mut text, layer);
            text.append("}\n");
            let ghost line_head = layer_line(x as int, y as int, layer as int);
            proof {
                assert(text@ =~= head + line_head + row_lines(rows.skip(layer * y), 0));
            }
            let mut line: usize = 0;
            while line < y
                invariant
                    line <= y,
                    layer < z,
                    fields@ == self.values(),
                    count == fields@.len() == x * (y * z),
                    self.extents()[0] == x,
                    forall|row: &[T]| row@.len() == x ==> #[trigger] call_requires(show, (row,)),
                    above.len() == layer * y,
                    rows.len() == layer * y + line,
                    start == rows.len() * x,
                    forall|k: int| 0 <= k < above.len() ==> #[trigger] above[k] == rows[k],
                    forall|k: int|
                        0 <= k < rows.len() ==> self.shown_row(show, k, #[trigger] rows[k]),
                    text@ == head + line_head + row_lines(rows.skip(layer * y), line as int),
                decreases y - line,
            {
                proof {
                    lemma_row_bound(x as int, y as int, z as int, layer as int, line as int);
                }
                let end = start + x;
                let row = slice_subrange(fields, start, end);
                let shown = show(row);
                let ghost tail = text@;
                text.append(" ");
                text.append(shown.as_str());
                text.append("\n");
                proof {
                    let k = rows.len() as int;
                    let more = rows.push(shown);
                    assert(row@ == self.row(k));
                    assert(self.shown_row(show, k, shown));
                    assert(more.skip(layer * y)[line as int] == shown);
                    lemma_row_lines(rows.skip(layer * y), more.skip(layer * y), line as int);
                    assert(text@ =~= head + line_head + row_lines(more.skip(layer * y), line + 1));
                    rows = more;
                }
                start = end;
                line = line + 1;
            }
            proof {
                let l = layer as int;
                assert((l + 1) * y == l * y + y) by (nonlinear_arith);
                lemma_layer_lines(x as int, y as int, above, rows, l);
                assert(rows.subrange(l * y, (l + 1) * y) =~= rows.skip(l * y));
                assert(text@ =~= title + layer_lines(x as int, y as int, rows, l + 1));
            }
            layer = layer + 1;
        }
        proof {
            assert(z * y == y * z) by (nonlinear_arith);
        }
        text
    }
}

/// Every row lies within the values.
proof fn lemma_row_bound(x: int, y: int, z: int, layer: int, line: int)
    requires
        x >= 0,
        0 <= line < y,
        0 <= layer < z,
    ensures
        0 <= layer * y,
        (layer * y + line + 1) * x == (layer * y + line) * x + x,
        0 <= (layer * y + line) * x,
        (layer * y + line + 1) * x <= x * (y * z),
{
    let k = layer * y + line;
    assert(0 <= layer * y) by (nonlinear_arith)
        requires
            layer >= 0,
            y >= 0,
    ;
    assert((k + 1) * x == k * x + x) by (nonlinear_arith);
    assert(0 <= k * x) by (nonlinear_arith)
        requires
            k >= 0,
            x >= 0,
    ;
    assert((layer + 1) * y <= y * z) by (nonlinear_arith)
        requires
            layer + 1 <= z,
            y >= 0,
    ;
    assert((layer + 1) * y == layer * y + y) by (nonlinear_arith);
    assert((k + 1) * x <= x * (y * z)) by (nonlinear_arith)
        requires
            0 <= k + 1 <= y * z,
            x >= 0,
    ;
}

proof fn lemma_total(size: Seq<int>)
    requires
        size.len() == 3,
    ensures
        product(size) == size[0] * (size[1] * size[2]),
{
    reveal_with_fuel(product, 4);
}

} // verus!
