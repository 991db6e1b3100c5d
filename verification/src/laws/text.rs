//! What texts say.
use crate::allocator::Address;
use crate::grid::text::{layer_lines, row_lines, title_line};
use crate::grid::{CellData, GridFlat};
use crate::laws::boxes::{lemma_row_major, lemma_volume};
use crate::text::decimal;
use crate::topology::Topology3d;
use vstd::prelude::*;

verus! {

/// The number that a text of decimal digits stands for.
pub open spec fn number(text: Seq<char>) -> int
    decreases text.len(),
{
    if text.len() == 0 {
        0
    } else {
        10 * number(text.drop_last()) + (text.last() as u32 - '0' as u32)
    }
}

/// A number in decimal form reads as that number. All its characters are digits,
/// and none is a leading zero.
pub proof fn lemma_decimal(n: int)
    requires
        n >= 0,
    ensures
        number(decimal(n)) == n,
        decimal(n).len() >= 1,
        forall|i: int|
            0 <= i < decimal(n).len() ==> '0' as u32 <= #[trigger] decimal(n)[i] as u32
                <= '9' as u32,
        n > 0 ==> decimal(n)[0] != '0',
    decreases n,
{
    let text = decimal(n);
    if n < 10 {
        assert(text.drop_last() =~= Seq::<char>::empty());
        assert(number(text.drop_last()) == 0);
    } else {
        lemma_decimal(n / 10);
        assert(text.drop_last() =~= decimal(n / 10));
        assert forall|i: int| 0 <= i < text.len() implies '0' as u32 <= #[trigger] text[i] as u32
            <= '9' as u32 by {
            if i < text.len() - 1 {
                assert(text[i] == decimal(n / 10)[i]);
            }
        }
        assert(text[0] == decimal(n / 10)[0]);
    }
}

/// An address as text is an at sign, the page, a number sign and the slot.
pub proof fn lemma_address_text(address: &Address, text: String) -> (mark: int)
    requires
        call_ensures(Address::to_string, (address,), text),
    ensures
        0 < mark < text@.len(),
        text@[0] == '@',
        text@[mark] == '#',
        forall|i: int| 0 < i < mark ==> '0' as u32 <= #[trigger] text@[i] as u32 <= '9' as u32,
        number(text@.subrange(1, mark)) == address.page_number(),
        number(text@.subrange(mark + 1, text@.len() as int)) == address.slot_number(),
{
    let page = decimal(address.page_number() as int);
    let slot = decimal(address.slot_number() as int);
    lemma_decimal(address.page_number() as int);
    lemma_decimal(address.slot_number() as int);
    let mark = 1 + page.len() as int;
    assert(text@.subrange(1, mark) =~= page);
    assert(text@.subrange(mark + 1, text@.len() as int) =~= slot);
    assert forall|i: int| 0 < i < mark implies '0' as u32 <= #[trigger] text@[i] as u32
        <= '9' as u32 by {
        assert(text@[i] == page[i - 1]);
    }
    mark
}

proof fn lemma_row_texts(rows: Seq<String>, count: nat)
    requires
        count <= rows.len(),
    ensures
        row_lines(rows, count as int) == Seq::new(
            count,
            |r: int| " "@ + rows[r]@ + "\n"@,
        ).flatten(),
    decreases count,
{
    let lines = Seq::new(count, |r: int| " "@ + rows[r]@ + "\n"@);
    lines.lemma_flatten_and_flatten_alt_are_equivalent();
    if count > 0 {
        let less = (count - 1) as nat;
        lemma_row_texts(rows, less);
        let fewer = Seq::new(less, |r: int| " "@ + rows[r]@ + "\n"@);
        fewer.lemma_flatten_and_flatten_alt_are_equivalent();
        assert(lines.drop_last() =~= fewer);
        assert(row_lines(rows, count as int) =~= row_lines(rows, less as int) + lines.last());
    }
}

proof fn lemma_layer_texts(x: int, y: nat, rows: Seq<String>, count: nat)
    requires
        count * y <= rows.len(),
    ensures
        layer_lines(x, y as int, rows, count as int) == Seq::new(
            count,
            |l: int|
                " {0.."@ + decimal(x) + " x 0.."@ + decimal(y as int) + " x "@ + decimal(l)
                    + "}\n"@ + Seq::new(y, |r: int| " "@ + rows[l * y + r]@ + "\n"@).flatten(),
        ).flatten(),
    decreases count,
{
    let layer = |l: int|
        " {0.."@ + decimal(x) + " x 0.."@ + decimal(y as int) + " x "@ + decimal(l) + "}\n"@
            + Seq::new(y, |r: int| " "@ + rows[l * y + r]@ + "\n"@).flatten();
    let layers = Seq::new(count, layer);
    layers.lemma_flatten_and_flatten_alt_are_equivalent();
    if count > 0 {
        let less = (count - 1) as nat;
        assert(less * y <= count * y && count * y == less * y + y) by (nonlinear_arith)
            requires
                count == less + 1,
                y >= 0,
        ;
        lemma_layer_texts(x, y, rows, less);
        let fewer = Seq::new(less, layer);
        fewer.lemma_flatten_and_flatten_alt_are_equivalent();
        assert(layers.drop_last() =~= fewer);
        let from = less * (y as int);
        let to = count * (y as int);
        assert(from >= 0) by (nonlinear_arith)
            requires
                from == less * y,
                less >= 0,
                y >= 0,
        ;
        let own = rows.subrange(from, to);
        lemma_row_texts(own, y);
        assert(Seq::new(y, |r: int| " "@ + own[r]@ + "\n"@) =~= Seq::new(
            y,
            |r: int| " "@ + rows[less * y + r]@ + "\n"@,
        )) by {
            assert forall|r: int| 0 <= r < y implies own[r] == rows[less * y + r] by {}
        }
        assert(layer_lines(x, y as int, rows, count as int) =~= layer_lines(
            x,
            y as int,
            rows,
            less as int,
        ) + layers.last());
    }
}

/// A dense grid as text: a line with its extents, and then, layer by layer, a line
/// with the layer's place and one line for each of its rows. Row `r` of layer `l`
/// is rendered from the values that lie there along axis zero.
pub proof fn lemma_grid_text<T: CellData, F: Fn(&[T]) -> String>(
    flat: &GridFlat<T, Topology3d>,
    show: F,
    text: String,
) -> (rows: Seq<String>)
    requires
        flat.wf(),
        forall|row: &[T]|
            row@.len() == flat.extents()[0] ==> #[trigger] call_requires(show, (row,)),
        call_ensures(GridFlat::<T, Topology3d>::to_text::<F>, (flat, show), text),
        flat.extents()[0] >= 0 && flat.extents()[1] >= 0 && flat.extents()[2] >= 0,
    ensures
        rows.len() == flat.extents()[1] * flat.extents()[2],
        forall|k: int| 0 <= k < rows.len() ==> flat.shown_row(show, k, #[trigger] rows[k]),
        text@ == "GridFlat(["@ + decimal(flat.extents()[0]) + ", "@ + decimal(flat.extents()[1])
            + ", "@ + decimal(flat.extents()[2]) + "])\n"@ + Seq::new(
            flat.extents()[2] as nat,
            |l: int|
                " {0.."@ + decimal(flat.extents()[0]) + " x 0.."@ + decimal(flat.extents()[1])
                    + " x "@ + decimal(l) + "}\n"@ + Seq::new(
                    flat.extents()[1] as nat,
                    |r: int| " "@ + rows[l * flat.extents()[1] + r]@ + "\n"@,
                ).flatten(),
        ).flatten(),
{
    let (x, y, z) = (flat.extents()[0], flat.extents()[1], flat.extents()[2]);
    let rows = choose|rows: Seq<String>|
        {
            &&& rows.len() == y * z
            &&& forall|k: int| 0 <= k < rows.len() ==> flat.shown_row(show, k, #[trigger] rows[k])
            &&& text@ == title_line(x, y, z) + #[trigger] layer_lines(x, y, rows, z)
        };
    assert(z * y == y * z) by (nonlinear_arith);
    lemma_layer_texts(x, y as nat, rows, z as nat);
    let layer = |l: int|
        " {0.."@ + decimal(x) + " x 0.."@ + decimal(y) + " x "@ + decimal(l) + "}\n"@ + Seq::new(
            y as nat,
            |r: int| " "@ + rows[l * y + r]@ + "\n"@,
        ).flatten();
    assert(layer_lines(x, y, rows, z) == Seq::new(z as nat, layer).flatten());
    rows
}

/// The rows of a dense grid, counted through all layers, run along axis zero.
pub proof fn lemma_row_values<T: CellData>(
    flat: GridFlat<T, Topology3d>,
    x: int,
    y: int,
    z: int,
)
    requires
        flat.wf(),
        0 <= x < flat.extents()[0],
        0 <= y < flat.extents()[1],
        0 <= z < flat.extents()[2],
    ensures
        ({
            let (width, height) = (flat.extents()[0], flat.extents()[1]);
            let row = flat.row(z * height + y);
            &&& row.len() == width
            &&& row[x] == flat.values()[x + width * (y + height * z)]
            &&& flat.value_at(x, y, z) == row[x]
        }),
{
    Topology3d::lemma_constants();
    let size = flat.extents();
    let (width, height, depth) = (size[0], size[1], size[2]);
    assert(size =~= seq![width, height, depth]);
    lemma_volume(width, height, depth);
    lemma_row_major(x, y, z, width, height, depth);
    let k = z * height + y;
    assert(0 <= k * width && (k + 1) * width == k * width + width && (k + 1) * width <= width
        * height * depth && k * width + x == x + width * (y + height * z)) by (nonlinear_arith)
        requires
            k == z * height + y,
            0 <= x < width,
            0 <= y < height,
            0 <= z < depth,
    {
        assert(0 <= z * height);
        assert((z + 1) * height <= depth * height);
        assert(k + 1 <= depth * height);
        assert((k + 1) * width <= (depth * height) * width);
    }
}

/// A row is shown as what rendering its values gives.
pub proof fn lemma_shown_row<T: CellData, F: Fn(&[T]) -> String>(
    flat: &GridFlat<T, Topology3d>,
    show: F,
    k: int,
    text: String,
)
    requires
        flat.shown_row(show, k, text),
    ensures
        exists|row: &[T]| row@ == flat.row(k) && #[trigger] call_ensures(show, (row,), text),
{
}

} // verus!
