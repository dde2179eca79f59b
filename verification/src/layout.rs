//! Rows of character cells, and the placing of labels on them so that no
//! two labels meet.
use vstd::prelude::*;

verus! {

/// What a label puts on the first row: its whole text where the labels run
/// along the axis, its first character where they are rotated.
pub open spec fn mark_of(text: Seq<char>, vertical: bool) -> Seq<char> {
    if vertical && text.len() > 1 {
        text.take(1)
    } else {
        text
    }
}

/// A row of `width` blank cells.
pub open spec fn blank_row(width: nat) -> Seq<char> {
    Seq::new(width, |c: int| ' ')
}

/// Whether the cells from `from` up to, not including, `to` are blank.
pub open spec fn is_blank(row: Seq<char>, from: int, to: int) -> bool {
    forall|c: int| from <= c < to ==> row[c] == ' '
}

/// The first cell of a mark whose middle is at `position`.
pub open spec fn mark_start(mark: Seq<char>, position: int) -> int {
    position - mark.len() / 2
}

/// The first cell that a mark asks to be blank: the cell before its own,
/// where there is one.
pub open spec fn padded_start(mark: Seq<char>, position: int) -> int {
    if mark_start(mark, position) > 0 {
        mark_start(mark, position) - 1
    } else {
        0
    }
}

/// The cell after the last that a mark asks to be blank: the second after
/// its own.
pub open spec fn padded_end(mark: Seq<char>, position: int) -> int {
    mark_start(mark, position) + mark.len() + 1
}

/// Whether the mark can be put on the row with its middle at `position`: it
/// starts on the row, it ends before the last cell, and its cells, the cell
/// before them where there is one, and the cell after them are blank.
pub open spec fn can_place(row: Seq<char>, mark: Seq<char>, position: int) -> bool {
    &&& 0 <= mark_start(mark, position)
    &&& mark_start(mark, position) + mark.len() < row.len()
    &&& is_blank(row, padded_start(mark, position), padded_end(mark, position))
}

/// The row with the mark written over the cells from `start` on.
pub open spec fn overwrite(row: Seq<char>, start: int, mark: Seq<char>) -> Seq<char> {
    Seq::new(
        row.len(),
        |c: int|
            if start <= c < start + mark.len() {
                mark[c - start]
            } else {
                row[c]
            },
    )
}

/// The row after the attempt to put the mark on it: with the mark where it
/// can be placed, unchanged where it cannot.
pub open spec fn place(row: Seq<char>, mark: Seq<char>, position: int) -> Seq<char> {
    if can_place(row, mark, position) {
        overwrite(row, mark_start(mark, position), mark)
    } else {
        row
    }
}

/// The first row after the first `n` labels were tried in turn, each on what
/// the labels before it left.
pub open spec fn base_row(
    texts: Seq<Seq<char>>,
    positions: Seq<int>,
    width: nat,
    vertical: bool,
    n: nat,
) -> Seq<char>
    decreases n,
{
    if n == 0 {
        blank_row(width)
    } else {
        place(
            base_row(texts, positions, width, vertical, (n - 1) as nat),
            mark_of(texts[n - 1], vertical),
            positions[n - 1],
        )
    }
}

/// Whether the label of index `i` is drawn: whether it could be placed on
/// what the labels before it left.
pub open spec fn is_drawn(
    texts: Seq<Seq<char>>,
    positions: Seq<int>,
    width: nat,
    vertical: bool,
    i: int,
) -> bool {
    can_place(
        base_row(texts, positions, width, vertical, i as nat),
        mark_of(texts[i], vertical),
        positions[i],
    )
}

/// Whether some label among the first `n` is not drawn.
pub open spec fn some_dropped(
    texts: Seq<Seq<char>>,
    positions: Seq<int>,
    width: nat,
    vertical: bool,
    n: int,
) -> bool {
    exists|i: int| 0 <= i < n && !#[trigger] is_drawn(texts, positions, width, vertical, i)
}

/// The row of the given level under rotated labels, after the first `n`
/// labels: each drawn label that is long enough has its character of that
/// level in its column.
pub open spec fn stacked_row(
    texts: Seq<Seq<char>>,
    positions: Seq<int>,
    width: nat,
    level: int,
    n: nat,
) -> Seq<char>
    decreases n,
{
    if n == 0 {
        blank_row(width)
    } else {
        let before = stacked_row(texts, positions, width, level, (n - 1) as nat);
        if is_drawn(texts, positions, width, true, n - 1) && level < texts[n - 1].len() {
            before.update(positions[n - 1], texts[n - 1][level])
        } else {
            before
        }
    }
}

/// The length of the longest of the first `n` texts.
pub open spec fn tallest(texts: Seq<Seq<char>>, n: nat) -> nat
    decreases n,
{
    if n == 0 {
        0
    } else {
        let before = tallest(texts, (n - 1) as nat);
        if texts[n - 1].len() > before {
            texts[n - 1].len()
        } else {
            before
        }
    }
}

/// The first `levels` rows under rotated labels, joined by line breaks.
pub open spec fn stacked_rows(
    texts: Seq<Seq<char>>,
    positions: Seq<int>,
    width: nat,
    levels: nat,
) -> Seq<char>
    decreases levels,
{
    if levels == 0 {
        Seq::empty()
    } else if levels == 1 {
        stacked_row(texts, positions, width, 0, texts.len())
    } else {
        stacked_rows(texts, positions, width, (levels - 1) as nat) + seq!['\n'] + stacked_row(
            texts,
            positions,
            width,
            levels - 1,
            texts.len(),
        )
    }
}

/// The grid of the labels as text. Where the labels run along the axis it
/// is the one row. Where they are rotated it has one row for each character
/// of the longest label, the rows joined by line breaks.
pub open spec fn rendered_text(
    texts: Seq<Seq<char>>,
    positions: Seq<int>,
    width: nat,
    vertical: bool,
) -> Seq<char> {
    if vertical {
        stacked_rows(texts, positions, width, tallest(texts, texts.len()))
    } else {
        base_row(texts, positions, width, false, texts.len())
    }
}

/// Every row has the width it was made with.
pub proof fn lemma_base_row_len(
    texts: Seq<Seq<char>>,
    positions: Seq<int>,
    width: nat,
    vertical: bool,
    n: nat,
)
    ensures
        base_row(texts, positions, width, vertical, n).len() == width,
    decreases n,
{
    if n > 0 {
        lemma_base_row_len(texts, positions, width, vertical, (n - 1) as nat);
    }
}

/// The characters of each text.
pub open spec fn rows_of(texts: Seq<Vec<char>>) -> Seq<Seq<char>> {
    Seq::new(texts.len(), |i: int| texts[i]@)
}

/// The values as mathematical integers.
pub open spec fn ints_of(values: Seq<i128>) -> Seq<int> {
    Seq::new(values.len(), |i: int| values[i] as int)
}

/// Try to put the first `mark_len` characters of `text` on the canvas with
/// their middle at `position`.
#[verifier::loop_isolation(false)]
fn place_mark(canvas: &mut Vec<char>, text: &Vec<char>, mark_len: usize, position: i128) -> (drawn:
    bool)
    requires
        mark_len <= text.len(),
        -0x1_0000_0000_0000_0000_0000_0000_0000 < position < 0x1_0000_0000_0000_0000_0000_0000_0000,
    ensures
        drawn == can_place(old(canvas)@, text@.take(mark_len as int), position as int),
        final(canvas)@ == place(old(canvas)@, text@.take(mark_len as int), position as int),
{
    let ghost mark = text@.take(mark_len as int);
    let ghost row = canvas@;
    proof {
        assert(mark.len() == mark_len);
        assert(mark_start(mark, position as int) == position - (mark_len as int) / 2);
    }
    let width: i128 = canvas.len() as i128;
    let len: i128 = mark_len as i128;
    let start: i128 = position - len / 2;
    if start < 0 || start + len >= width {
        return false;
    }
    let from: usize = if start > 0 {
        (start - 1) as usize
    } else {
        0
    };
    let to: usize = (start + len + 1) as usize;
    let mut c: usize = from;
    while c < to
        invariant
            from <= c <= to <= canvas.len(),
            canvas@ == row,
            is_blank(row, from as int, c as int),
        decreases to - c,
    {
        if canvas[c] != ' ' {
            proof {
                assert(row[c as int] != ' ');
                assert(!is_blank(row, from as int, to as int));
            }
            return false;
        }
        c += 1;
    }
    let first: usize = start as usize;
    let mut t: usize = 0;
    while t < mark_len
        invariant
            t <= mark_len <= text.len(),
            first == start,
            first + mark_len < canvas.len(),
            canvas@.len() == row.len(),
            forall|k: int|
                0 <= k < row.len() ==> canvas@[k] == if first <= k < first + t {
                    text@[k - first]
                } else {
                    row[k]
                },
        decreases mark_len - t,
    {
        canvas.set(first + t, text[t]);
        t += 1;
    }
    proof {
        assert(canvas@ =~= overwrite(row, start as int, mark));
    }
    true
}

/// A row of `width` blank cells.
pub(crate) fn blank_canvas(width: u64) -> (canvas: Vec<char>)
    ensures
        canvas@ == blank_row(width as nat),
{
    let mut canvas: Vec<char> = Vec::new();
    let mut c: u64 = 0;
    while c < width
        invariant
            c <= width,
            canvas@ =~= blank_row(c as nat),
        decreases width - c,
    {
        canvas.push(' ');
        c += 1;
    }
    canvas
}

/// Append the cells of the row to the text.
pub(crate) fn push_row(text: &mut String, row: &Vec<char>)
    ensures
        final(text)@ == old(text)@ + row@,
{
    let mut c: usize = 0;
    while c < row.len()
        invariant
            c <= row.len(),
            text@ =~= old(text)@ + row@.take(c as int),
        decreases row.len() - c,
    {
        text.push(row[c]);
        c += 1;
    }
    proof {
        assert(row@.take(row.len() as int) =~= row@);
    }
}

/// The length of the longest text.
fn longest(texts: &Vec<Vec<char>>) -> (len: usize)
    ensures
        len == tallest(rows_of(texts@), texts.len() as nat),
{
    let mut len: usize = 0;
    let mut i: usize = 0;
    while i < texts.len()
        invariant
            i <= texts.len(),
            len == tallest(rows_of(texts@), i as nat),
        decreases texts.len() - i,
    {
        if texts[i].len() > len {
            len = texts[i].len();
        }
        i += 1;
    }
    len
}

/// Lay the texts out on a grid `width` cells wide, each with its middle at
/// its position, and say whether a text had to be left out.
pub(crate) fn draw_labels(texts: &Vec<Vec<char>>, positions: &Vec<i128>, width: u64, vertical: bool) -> (result:
    (String, bool))
    requires
        texts.len() == positions.len(),
        forall|i: int|
            0 <= i < positions.len() ==> -0x1_0000_0000_0000_0000_0000_0000_0000
                < #[trigger] positions[i] < 0x1_0000_0000_0000_0000_0000_0000_0000,
    ensures
        result.0@ == rendered_text(
            rows_of(texts@),
            ints_of(positions@),
            width as nat,
            vertical,
        ),
        result.1 == some_dropped(
            rows_of(texts@),
            ints_of(positions@),
            width as nat,
            vertical,
            texts.len() as int,
        ),
{
    let ghost marks = rows_of(texts@);
    let ghost cells = ints_of(positions@);
    let n = texts.len();
    let mut canvas = blank_canvas(width);
    let mut drawn: Vec<bool> = Vec::new();
    let mut found_overlap = false;
    let mut i: usize = 0;
    while i < n
        invariant
            n == texts.len(),
            n == positions.len(),
            i <= n,
            marks == rows_of(texts@),
            cells == ints_of(positions@),
            forall|k: int|
                0 <= k < positions.len() ==> -0x1_0000_0000_0000_0000_0000_0000_0000
                    < #[trigger] positions[k] < 0x1_0000_0000_0000_0000_0000_0000_0000,
            canvas@ == base_row(marks, cells, width as nat, vertical, i as nat),
            drawn.len() == i,
            forall|k: int|
                0 <= k < i ==> drawn[k] == is_drawn(marks, cells, width as nat, vertical, k),
            found_overlap == some_dropped(marks, cells, width as nat, vertical, i as int),
        decreases n - i,
    {
        let text = &texts[i];
        let mark_len: usize = if vertical && text.len() > 1 {
            1
        } else {
            text.len()
        };
        proof {
            assert(marks[i as int] == text@);
            assert(cells[i as int] == positions[i as int]);
            assert(text@.take(mark_len as int) =~= mark_of(text@, vertical));
        }
        let placed = place_mark(&mut canvas, text, mark_len, positions[i]);
        drawn.push(placed);
        if !placed {
            found_overlap = true;
        }
        proof {
            let w = width as nat;
            assert(placed == is_drawn(marks, cells, w, vertical, i as int));
            if some_dropped(marks, cells, w, vertical, i as int) {
                let k = choose|k: int|
                    0 <= k < i && !#[trigger] is_drawn(marks, cells, w, vertical, k);
                assert(0 <= k < i + 1 && !is_drawn(marks, cells, w, vertical, k));
            }
            if some_dropped(marks, cells, w, vertical, i + 1) {
                let k = choose|k: int|
                    0 <= k < i + 1 && !#[trigger] is_drawn(marks, cells, w, vertical, k);
                if k < i {
                    assert(some_dropped(marks, cells, w, vertical, i as int));
                }
            }
        }
        i += 1;
    }
    let mut out = String::new();
    if !vertical {
        push_row(&mut out, &canvas);
        return (out, found_overlap);
    }
    let levels = longest(texts);
    let mut level: usize = 0;
    while level < levels
        invariant
            n == texts.len(),
            n == positions.len(),
            level <= levels,
            vertical,
            marks == rows_of(texts@),
            cells == ints_of(positions@),
            drawn.len() == n,
            forall|k: int|
                0 <= k < n ==> drawn[k] == is_drawn(marks, cells, width as nat, vertical, k),
            out@ == stacked_rows(marks, cells, width as nat, level as nat),
        decreases levels - level,
    {
        let mut row = blank_canvas(width);
        let mut k: usize = 0;
        while k < n
            invariant
                n == texts.len(),
                n == positions.len(),
                k <= n,
                vertical,
                marks == rows_of(texts@),
                cells == ints_of(positions@),
                drawn.len() == n,
                forall|j: int|
                    0 <= j < n ==> drawn[j] == is_drawn(marks, cells, width as nat, vertical, j),
                row@ == stacked_row(marks, cells, width as nat, level as int, k as nat),
                row@.len() == width,
            decreases n - k,
        {
            if drawn[k] && level < texts[k].len() {
                proof {
                    assert(marks[k as int] == texts[k as int]@);
                    assert(cells[k as int] == positions[k as int]);
                    lemma_base_row_len(marks, cells, width as nat, vertical, k as nat);
                    assert(is_drawn(marks, cells, width as nat, vertical, k as int));
                    let mark = mark_of(marks[k as int], true);
                    assert(mark.len() == 1);
                    assert(mark_start(mark, cells[k as int]) == cells[k as int]);
                    assert(can_place(
                        base_row(marks, cells, width as nat, vertical, k as nat),
                        mark,
                        cells[k as int],
                    ));
                    assert(0 <= positions[k as int] < row.len());
                }
                row.set(positions[k] as usize, texts[k][level]);
            }
            k += 1;
        }
        if level > 0 {
            out.push('\n');
        }
        push_row(&mut out, &row);
        proof {
            assert(marks.len() == n);
            assert(out@ =~= stacked_rows(marks, cells, width as nat, (level + 1) as nat));
        }
        level += 1;
    }
    (out, found_overlap)
}

/// The characters of the string.
pub(crate) fn chars_of(text: &String) -> (chars: Vec<char>)
    ensures
        chars@ == text@,
{
    let slice = text.as_str();
    let n = slice.unicode_len();
    let mut chars: Vec<char> = Vec::new();
    let mut i: usize = 0;
    while i < n
        invariant
            slice@ == text@,
            n == text@.len(),
            i <= n,
            chars@ =~= text@.take(i as int),
        decreases n - i,
    {
        chars.push(slice.get_char(i));
        i += 1;
    }
    proof {
        assert(text@.take(n as int) =~= text@);
    }
    chars
}

/// Whether the mark has a character that is not blank at the cell.
pub open spec fn covers(mark: Seq<char>, position: int, cell: int) -> bool {
    let t = cell - mark_start(mark, position);
    0 <= t < mark.len() && mark[t] != ' '
}

/// Whether the row shows the mark: each character of the mark that is not
/// blank stands in its cell.
pub open spec fn shows(row: Seq<char>, mark: Seq<char>, position: int) -> bool {
    forall|t: int|
        0 <= t < mark.len() && mark[t] != ' ' ==> #[trigger] row[mark_start(mark, position) + t]
            == mark[t]
}

/// A label that is drawn stays: whatever labels are tried after it, the row
/// shows it.
pub proof fn lemma_drawn_label_stays(
    texts: Seq<Seq<char>>,
    positions: Seq<int>,
    width: nat,
    vertical: bool,
    i: int,
    n: nat,
)
    requires
        0 <= i < n,
        is_drawn(texts, positions, width, vertical, i),
    ensures
        shows(
            base_row(texts, positions, width, vertical, n),
            mark_of(texts[i], vertical),
            positions[i],
        ),
    decreases n,
{
    let mark = mark_of(texts[i], vertical);
    let start = mark_start(mark, positions[i]);
    let before = base_row(texts, positions, width, vertical, (n - 1) as nat);
    let row = base_row(texts, positions, width, vertical, n);
    lemma_base_row_len(texts, positions, width, vertical, i as nat);
    lemma_base_row_len(texts, positions, width, vertical, (n - 1) as nat);
    if n - 1 == i {
        assert(row == overwrite(before, start, mark));
        assert forall|t: int| 0 <= t < mark.len() && mark[t] != ' ' implies #[trigger] row[start
            + t] == mark[t] by {
            assert(start + t - start == t);
        }
    } else {
        lemma_drawn_label_stays(texts, positions, width, vertical, i, (n - 1) as nat);
        let other = mark_of(texts[n - 1], vertical);
        let place_at = positions[n - 1];
        assert forall|t: int| 0 <= t < mark.len() && mark[t] != ' ' implies #[trigger] row[start
            + t] == mark[t] by {
            assert(before[start + t] == mark[t]);
            if can_place(before, other, place_at) {
                let from = if mark_start(other, place_at) > 0 {
                    mark_start(other, place_at) - 1
                } else {
                    0
                };
                let to = mark_start(other, place_at) + other.len() + 1;
                assert(is_blank(before, from, to));
                assert(!(from <= start + t < to));
            }
        }
    }
}

/// Two labels that are both drawn do not meet: no character of the earlier
/// one that is not blank lies in the cells that the later one asked to be
/// blank, which are its own cells and the cell on either side of them.
pub proof fn lemma_drawn_labels_do_not_meet(
    texts: Seq<Seq<char>>,
    positions: Seq<int>,
    width: nat,
    vertical: bool,
    i: int,
    j: int,
    cell: int,
)
    requires
        0 <= i < j,
        is_drawn(texts, positions, width, vertical, i),
        is_drawn(texts, positions, width, vertical, j),
        covers(mark_of(texts[i], vertical), positions[i], cell),
    ensures
        !(padded_start(mark_of(texts[j], vertical), positions[j]) <= cell < padded_end(
            mark_of(texts[j], vertical),
            positions[j],
        )),
        !covers(mark_of(texts[j], vertical), positions[j], cell),
{
    let mark = mark_of(texts[i], vertical);
    let other = mark_of(texts[j], vertical);
    let row = base_row(texts, positions, width, vertical, j as nat);
    lemma_drawn_label_stays(texts, positions, width, vertical, i, j as nat);
    let t = cell - mark_start(mark, positions[i]);
    assert(row[mark_start(mark, positions[i]) + t] == mark[t]);
    assert(is_blank(
        row,
        padded_start(other, positions[j]),
        padded_end(other, positions[j]),
    ));
}

/// The overlap is reported exactly where a label is left out. Where none is
/// reported, the row shows every label, and no two labels have a character
/// that is not blank in one cell.
pub proof fn lemma_no_overlap_shows_every_label(
    texts: Seq<Seq<char>>,
    positions: Seq<int>,
    width: nat,
    vertical: bool,
)
    ensures
        !some_dropped(texts, positions, width, vertical, texts.len() as int) <==> forall|i: int|
            0 <= i < texts.len() ==> #[trigger] is_drawn(texts, positions, width, vertical, i),
        !some_dropped(texts, positions, width, vertical, texts.len() as int) ==> forall|i: int|
            0 <= i < texts.len() ==> shows(
                base_row(texts, positions, width, vertical, texts.len()),
                mark_of(#[trigger] texts[i], vertical),
                positions[i],
            ),
        !some_dropped(texts, positions, width, vertical, texts.len() as int) ==> forall|
            i: int,
            j: int,
            cell: int,
        |
            0 <= i < j < texts.len() ==> !(#[trigger] covers(
                mark_of(texts[i], vertical),
                positions[i],
                cell,
            ) && #[trigger] covers(mark_of(texts[j], vertical), positions[j], cell)),
{
    let n = texts.len();
    if !some_dropped(texts, positions, width, vertical, n as int) {
        assert forall|i: int| 0 <= i < n implies shows(
            base_row(texts, positions, width, vertical, n),
            mark_of(#[trigger] texts[i], vertical),
            positions[i],
        ) by {
            assert(is_drawn(texts, positions, width, vertical, i));
            lemma_drawn_label_stays(texts, positions, width, vertical, i, n);
        }
        assert forall|i: int, j: int, cell: int| 0 <= i < j < n implies !(#[trigger] covers(
            mark_of(texts[i], vertical),
            positions[i],
            cell,
        ) && #[trigger] covers(mark_of(texts[j], vertical), positions[j], cell)) by {
            assert(is_drawn(texts, positions, width, vertical, i));
            assert(is_drawn(texts, positions, width, vertical, j));
            if covers(mark_of(texts[i], vertical), positions[i], cell) {
                lemma_drawn_labels_do_not_meet(texts, positions, width, vertical, i, j, cell);
            }
        }
    }
}

/// Where a character of a label that is not blank lies in the cells that a
/// later label asks to be blank, the overlap is reported.
pub proof fn lemma_meeting_labels_are_reported(
    texts: Seq<Seq<char>>,
    positions: Seq<int>,
    width: nat,
    vertical: bool,
    i: int,
    j: int,
    cell: int,
)
    requires
        0 <= i < j < texts.len(),
        covers(mark_of(texts[i], vertical), positions[i], cell),
        padded_start(mark_of(texts[j], vertical), positions[j]) <= cell < padded_end(
            mark_of(texts[j], vertical),
            positions[j],
        ),
    ensures
        some_dropped(texts, positions, width, vertical, texts.len() as int),
{
    if is_drawn(texts, positions, width, vertical, i) && is_drawn(
        texts,
        positions,
        width,
        vertical,
        j,
    ) {
        lemma_drawn_labels_do_not_meet(texts, positions, width, vertical, i, j, cell);
    }
}

/// The grid of labels that run along the axis is as long as the row is wide.
pub proof fn lemma_rendered_width(texts: Seq<Seq<char>>, positions: Seq<int>, width: nat)
    ensures
        rendered_text(texts, positions, width, false).len() == width,
{
    lemma_base_row_len(texts, positions, width, false, texts.len());
}

/// Every row of rotated labels has the width it was made with.
pub proof fn lemma_stacked_row_len(
    texts: Seq<Seq<char>>,
    positions: Seq<int>,
    width: nat,
    level: int,
    n: nat,
)
    ensures
        stacked_row(texts, positions, width, level, n).len() == width,
    decreases n,
{
    if n > 0 {
        lemma_stacked_row_len(texts, positions, width, level, (n - 1) as nat);
        if is_drawn(texts, positions, width, true, n - 1) {
            let mark = mark_of(texts[n - 1], true);
            lemma_base_row_len(texts, positions, width, true, (n - 1) as nat);
            assert(mark.len() <= 1);
            assert(mark_start(mark, positions[n - 1]) == positions[n - 1]);
        }
    }
}

/// The grid of rotated labels holds its rows, each as long as the row is
/// wide, and a line break between each two of them.
pub proof fn lemma_stacked_rows_len(
    texts: Seq<Seq<char>>,
    positions: Seq<int>,
    width: nat,
    levels: nat,
)
    ensures
        levels == 0 ==> stacked_rows(texts, positions, width, levels).len() == 0,
        levels > 0 ==> stacked_rows(texts, positions, width, levels).len() == levels * width
            + levels - 1,
    decreases levels,
{
    if levels == 1 {
        lemma_stacked_row_len(texts, positions, width, 0, texts.len());
        assert(1 * width == width) by (nonlinear_arith);
    } else if levels > 1 {
        lemma_stacked_rows_len(texts, positions, width, (levels - 1) as nat);
        lemma_stacked_row_len(texts, positions, width, levels - 1, texts.len());
        assert(levels * width == (levels - 1) * width + width) by (nonlinear_arith);
    }
}

/// Under rotated labels a drawn label is read down its column: where no
/// text starts with a blank, each of its characters stands in the row of its
/// level, in the column of the label.
pub proof fn lemma_drawn_label_is_stacked(
    texts: Seq<Seq<char>>,
    positions: Seq<int>,
    width: nat,
    i: int,
    level: int,
    n: nat,
)
    requires
        0 <= i < n,
        0 <= level < texts[i].len(),
        is_drawn(texts, positions, width, true, i),
        forall|k: int| 0 <= k < n && texts[k].len() > 0 ==> (#[trigger] texts[k])[0] != ' ',
    ensures
        0 <= positions[i] < width,
        stacked_row(texts, positions, width, level, n)[positions[i]] == texts[i][level],
    decreases n,
{
    let mark = mark_of(texts[i], true);
    lemma_base_row_len(texts, positions, width, true, i as nat);
    lemma_stacked_row_len(texts, positions, width, level, (n - 1) as nat);
    assert(mark.len() == 1);
    assert(mark_start(mark, positions[i]) == positions[i]);
    if n - 1 > i {
        lemma_drawn_label_is_stacked(texts, positions, width, i, level, (n - 1) as nat);
        let j = n - 1;
        if is_drawn(texts, positions, width, true, j) && level < texts[j].len() {
            let other = mark_of(texts[j], true);
            lemma_base_row_len(texts, positions, width, true, j as nat);
            assert(mark[0] == texts[i][0]);
            assert(covers(mark, positions[i], positions[i]));
            lemma_drawn_labels_do_not_meet(texts, positions, width, true, i, j, positions[i]);
            assert(other.len() == 1);
            assert(mark_start(other, positions[j]) == positions[j]);
            assert(positions[j] != positions[i]);
        }
    }
}

} // verus!
