//! The dense matrix type: shape-checked construction, indexing, slicing and
//! concatenation.

use vstd::prelude::*;

verus! {

/// A rectangular, row-major matrix with an explicit `(width, height)`.
#[derive(Debug, PartialEq)]
pub struct Array<T> {
    pub(crate) content: Vec<Vec<T>>,
    pub(crate) size: (usize, usize),
}

/// Every row of `m` has `w` entries.
pub open spec fn rect<T>(m: Seq<Seq<T>>, w: nat) -> bool {
    forall|i: int| 0 <= i < m.len() ==> (#[trigger] m[i]).len() == w
}

/// The rows that `v` holds.
pub open spec fn rows_of<T>(v: Seq<Vec<T>>) -> Seq<Seq<T>> {
    Seq::new(v.len(), |i: int| v[i]@)
}

impl<T> View for Array<T> {
    type V = Seq<Seq<T>>;

    /// The rows, top to bottom.
    open(crate) spec fn view(&self) -> Seq<Seq<T>> {
        rows_of(self.content@)
    }
}

impl<T> Array<T> {
    /// The number of columns.
    pub open(crate) spec fn width(&self) -> nat {
        self.size.0 as nat
    }

    /// The number of rows.
    pub open(crate) spec fn height(&self) -> nat {
        self.size.1 as nat
    }

    /// The rows agree with the recorded shape.
    pub open spec fn wf(&self) -> bool {
        &&& self@.len() == self.height()
        &&& rect(self@, self.width())
    }

    /// The shape, as `(width, height)`.
    pub fn size(&self) -> (s: (usize, usize))
        ensures
            s.0 == self.width(),
            s.1 == self.height(),
    {
        self.size
    }
}

impl<T: Copy> Array<T> {
    /// A column vector holding `content`, top to bottom.
    pub fn new_vec(content: Vec<T>) -> (r: Self)
        ensures
            r.wf(),
            r.width() == 1,
            r.height() == content.len(),
            forall|i: int| 0 <= i < content.len() ==> #[trigger] r@[i] == seq![content[i]],
    {
        let height = content.len();
        let mut temp: Vec<Vec<T>> = Vec::with_capacity(height);
        let mut i: usize = 0;
        while i < height
            invariant
                height == content.len(),
                i <= height,
                temp.len() == i,
                forall|k: int| 0 <= k < i ==> #[trigger] temp[k]@ == seq![content[k]],
            decreases height - i,
        {
            let mut row: Vec<T> = Vec::with_capacity(1);
            row.push(content[i]);
            assert(row@ == seq![content[i as int]]);
            temp.push(row);
            i += 1;
        }
        Array { content: temp, size: (1, height) }
    }

    /// The matrix whose rows are `content`, which must all be of one length.
    pub fn new_mat(content: Vec<Vec<T>>) -> (r: Self)
        requires
            forall|i: int| 0 <= i < content.len() ==> (#[trigger] content[i]).len() == content[0].len(),
        ensures
            r.wf(),
            r.height() == content.len(),
            r.width() == (if content.len() > 0 { content[0].len() } else { 0 }),
            r@.len() == content.len(),
            forall|i: int| 0 <= i < content.len() ==> #[trigger] r@[i] == content[i]@,
    {
        let height = content.len();
        let width = if height > 0 { content[0].len() } else { 0 };
        Array { content, size: (width, height) }
    }

    /// The matrix of shape `size`, given as `(width, height)`, that holds
    /// `value` everywhere.
    pub fn new_filled(size: (usize, usize), value: T) -> (r: Self)
        ensures
            r.wf(),
            r.width() == size.0,
            r.height() == size.1,
            forall|i: int, j: int| 0 <= i < size.1 && 0 <= j < size.0 ==> #[trigger] r@[i][j] == value,
    {
        let mut content: Vec<Vec<T>> = Vec::with_capacity(size.1);
        while content.len() < size.1
            invariant
                content.len() <= size.1,
                forall|i: int| 0 <= i < content.len() ==> (#[trigger] content[i]).len() == size.0,
                forall|i: int, j: int| 0 <= i < content.len() && 0 <= j < size.0 ==> #[trigger] content[i][j] == value,
            decreases size.1 - content.len(),
        {
            let row = filled_row(size.0, value);
            content.push(row);
        }
        Array { content, size }
    }

    /// The entry in row `row` and column `col`.
    pub fn get(&self, row: usize, col: usize) -> (r: T)
        requires
            self.wf(),
            row < self.height(),
            col < self.width(),
        ensures
            r == self@[row as int][col as int],
    {
        assert(self@[row as int].len() == self.width());
        self.content[row][col]
    }

    /// Replaces the entry in row `row` and column `col` by `value`.
    pub fn set(&mut self, row: usize, col: usize, value: T)
        requires
            old(self).wf(),
            row < old(self).height(),
            col < old(self).width(),
        ensures
            final(self).wf(),
            final(self).width() == old(self).width(),
            final(self).height() == old(self).height(),
            final(self)@ == old(self)@.update(row as int, old(self)@[row as int].update(col as int, value)),
    {
        assert(self@[row as int].len() == self.width());
        self.content[row][col] = value;
        assert(self@ =~= old(self)@.update(row as int, old(self)@[row as int].update(col as int, value)));
    }
}

impl<T: Copy> Clone for Array<T> {
    fn clone(&self) -> (r: Self)
        ensures
            r@ == self@,
            r.width() == self.width(),
            r.height() == self.height(),
    {
        let mut content: Vec<Vec<T>> = Vec::with_capacity(self.content.len());
        let mut i: usize = 0;
        while i < self.content.len()
            invariant
                i <= self.content.len(),
                content.len() == i,
                forall|k: int| 0 <= k < i ==> #[trigger] content[k]@ == self.content[k]@,
            decreases self.content.len() - i,
        {
            content.push(copy_row(&self.content[i]));
            i += 1;
        }
        let r = Array { content, size: self.size };
        assert(r@ =~= self@);
        r
    }
}

impl<T: Copy> Array<T> {
    /// The matrix mirrored at its diagonal.
    pub fn transpose(&self) -> (r: Self)
        requires
            self.wf(),
        ensures
            r.wf(),
            r.width() == self.height(),
            r.height() == self.width(),
            forall|i: int, j: int| 0 <= i < self.width() && 0 <= j < self.height() ==> #[trigger] r@[i][j] == self@[j][i],
    {
        let mut content: Vec<Vec<T>> = Vec::with_capacity(self.size.0);
        let mut col: usize = 0;
        while col < self.size.0
            invariant
                self.wf(),
                col <= self.size.0,
                content.len() == col,
                forall|i: int| 0 <= i < col ==> (#[trigger] content[i]).len() == self.size.1,
                forall|i: int, j: int| 0 <= i < col && 0 <= j < self.size.1 ==> #[trigger] content[i][j] == self@[j][i],
            decreases self.size.0 - col,
        {
            let mut temp: Vec<T> = Vec::with_capacity(self.size.1);
            let mut row: usize = 0;
            while row < self.size.1
                invariant
                    self.wf(),
                    col < self.size.0,
                    row <= self.size.1,
                    temp.len() == row,
                    forall|j: int| 0 <= j < row ==> #[trigger] temp[j] == self@[j][col as int],
                decreases self.size.1 - row,
            {
                assert(self@[row as int].len() == self.width());
                temp.push(self.content[row][col]);
                row += 1;
            }
            content.push(temp);
            col += 1;
        }
        Array { content, size: (self.size.1, self.size.0) }
    }

    /// Row `index`, as a matrix of height 1.
    pub fn get_row(&self, index: usize) -> (r: Self)
        requires
            self.wf(),
            index < self.height(),
        ensures
            r.wf(),
            r.width() == self.width(),
            r.height() == 1,
            r@ == seq![self@[index as int]],
    {
        assert(self@[index as int].len() == self.width());
        let row = copy_row(&self.content[index]);
        let mut content: Vec<Vec<T>> = Vec::with_capacity(1);
        content.push(row);
        let r = Array { content, size: (self.size.0, 1) };
        assert(r@ =~= seq![self@[index as int]]);
        r
    }

    /// Column `index`, as a matrix of width 1.
    pub fn get_col(&self, index: usize) -> (r: Self)
        requires
            self.wf(),
            index < self.width(),
        ensures
            r.wf(),
            r.width() == 1,
            r.height() == self.height(),
            forall|i: int| 0 <= i < self.height() ==> #[trigger] r@[i] == seq![self@[i][index as int]],
    {
        let mut content: Vec<T> = Vec::with_capacity(self.size.1);
        let mut row: usize = 0;
        while row < self.size.1
            invariant
                self.wf(),
                index < self.width(),
                row <= self.size.1,
                content.len() == row,
                forall|i: int| 0 <= i < row ==> #[trigger] content[i] == self@[i][index as int],
            decreases self.size.1 - row,
        {
            assert(self@[row as int].len() == self.width());
            content.push(self.content[row][index]);
            row += 1;
        }
        Array::new_vec(content)
    }

    /// `a` and `b` side by side: each row of `a` followed by the same row of `b`.
    pub fn concat_0_axis(a: Self, b: Self) -> (r: Self)
        requires
            a.wf(),
            b.wf(),
            a.height() == b.height(),
            a.width() + b.width() <= usize::MAX,
        ensures
            r.wf(),
            r.width() == a.width() + b.width(),
            r.height() == a.height(),
            forall|i: int| 0 <= i < a.height() ==> #[trigger] r@[i] == a@[i] + b@[i],
    {
        let mut content: Vec<Vec<T>> = Vec::with_capacity(a.size.1);
        let mut row: usize = 0;
        while row < a.size.1
            invariant
                a.wf(),
                b.wf(),
                a.height() == b.height(),
                row <= a.size.1,
                content.len() == row,
                forall|i: int| 0 <= i < row ==> #[trigger] content[i]@ == a@[i] + b@[i],
            decreases a.size.1 - row,
        {
            let mut joined = copy_row(&a.content[row]);
            let mut tail = copy_row(&b.content[row]);
            joined.append(&mut tail);
            content.push(joined);
            row += 1;
        }
        let r = Array { content, size: (a.size.0 + b.size.0, a.size.1) };
        assert forall|i: int| 0 <= i < r@.len() implies (#[trigger] r@[i]).len() == r.width() by {
            assert(r@[i] == a@[i] + b@[i]);
            assert(a@[i].len() == a.width());
            assert(b@[i].len() == b.width());
        }
        r
    }

    /// `a` on top of `b`.
    pub fn concat_1_axis(a: Self, b: Self) -> (r: Self)
        requires
            a.wf(),
            b.wf(),
            a.width() == b.width(),
            a.height() + b.height() <= usize::MAX,
        ensures
            r.wf(),
            r.width() == a.width(),
            r.height() == a.height() + b.height(),
            r@ == a@ + b@,
    {
        let mut content = a.content;
        let mut rest = b.content;
        content.append(&mut rest);
        let r = Array { content, size: (a.size.0, a.size.1 + b.size.1) };
        assert(r@ =~= a@ + b@);
        r
    }

    /// Cuts `m` between columns `col - 1` and `col`: the columns before `col`,
    /// and those from `col` on. A cut past the last column leaves the second
    /// part without columns.
    pub fn split_0_axis(m: Self, col: usize) -> (r: (Self, Self))
        requires
            m.wf(),
        ensures
            r.0.wf(),
            r.1.wf(),
            r.0.height() == m.height(),
            r.1.height() == m.height(),
            r.0.width() == (if col <= m.width() { col as nat } else { m.width() }),
            r.0.width() + r.1.width() == m.width(),
            forall|i: int| 0 <= i < m.height() ==> #[trigger] r.0@[i] == m@[i].take(r.0.width() as int),
            forall|i: int| 0 <= i < m.height() ==> #[trigger] r.1@[i] == m@[i].skip(r.0.width() as int),
    {
        let at = if col <= m.size.0 { col } else { m.size.0 };
        let mut left: Vec<Vec<T>> = Vec::with_capacity(m.size.1);
        let mut right: Vec<Vec<T>> = Vec::with_capacity(m.size.1);
        let mut row: usize = 0;
        while row < m.size.1
            invariant
                m.wf(),
                at <= m.size.0,
                row <= m.size.1,
                left.len() == row,
                right.len() == row,
                forall|i: int| 0 <= i < row ==> #[trigger] left[i]@ == m@[i].take(at as int),
                forall|i: int| 0 <= i < row ==> #[trigger] right[i]@ == m@[i].skip(at as int),
            decreases m.size.1 - row,
        {
            assert(m@[row as int].len() == m.width());
            let mut head = copy_row(&m.content[row]);
            let tail = head.split_off(at);
            assert(head@ == m@[row as int].take(at as int));
            assert(tail@ == m@[row as int].skip(at as int));
            left.push(head);
            right.push(tail);
            row += 1;
        }
        let a = Array { content: left, size: (at, m.size.1) };
        let b = Array { content: right, size: (m.size.0 - at, m.size.1) };
        assert forall|i: int| 0 <= i < a@.len() implies (#[trigger] a@[i]).len() == a.width() by {
            assert(m@[i].len() == m.width());
        }
        assert forall|i: int| 0 <= i < b@.len() implies (#[trigger] b@[i]).len() == b.width() by {
            assert(m@[i].len() == m.width());
        }
        (a, b)
    }

    /// Cuts `m` between rows `row - 1` and `row`: the rows before `row`, and
    /// those from `row` on. A cut past the last row leaves the second part
    /// without rows.
    pub fn split_1_axis(m: Self, row: usize) -> (r: (Self, Self))
        requires
            m.wf(),
        ensures
            r.0.wf(),
            r.1.wf(),
            r.0.width() == m.width(),
            r.1.width() == m.width(),
            r.0.height() == (if row <= m.height() { row as nat } else { m.height() }),
            r.0.height() + r.1.height() == m.height(),
            r.0@ == m@.take(r.0.height() as int),
            r.1@ == m@.skip(r.0.height() as int),
    {
        let at = if row <= m.size.1 { row } else { m.size.1 };
        let mut top = m.content;
        let bottom = top.split_off(at);
        let a = Array { content: top, size: (m.size.0, at) };
        let b = Array { content: bottom, size: (m.size.0, m.size.1 - at) };
        assert(a@ =~= m@.take(at as int));
        assert(b@ =~= m@.skip(at as int));
        (a, b)
    }

    /// Grows the matrix to the shape `size`, given as `(width, height)`, which
    /// is no smaller than its own in either direction; every new entry is
    /// `value`.
    pub fn extend_to(&mut self, size: (usize, usize), value: T)
        requires
            old(self).wf(),
            size.0 >= old(self).width(),
            size.1 >= old(self).height(),
        ensures
            final(self).wf(),
            final(self).width() == size.0,
            final(self).height() == size.1,
            forall|i: int, j: int| 0 <= i < size.1 && 0 <= j < size.0 ==> #[trigger] final(self)@[i][j] == (
                if i < old(self).height() && j < old(self).width() {
                    old(self)@[i][j]
                } else {
                    value
                }),
    {
        let ghost before = self@;
        let old_width = self.size.0;
        let old_height = self.size.1;
        let mut row: usize = 0;
        while row < old_height
            invariant
                old_height == self.content.len(),
                old_width <= size.0,
                before.len() == old_height,
                rect(before, old_width as nat),
                row <= old_height,
                forall|i: int| 0 <= i < row ==> #[trigger] self.content[i]@ == before[i] + Seq::new((size.0 - old_width) as nat, |j: int| value),
                forall|i: int| row <= i < old_height ==> #[trigger] self.content[i]@ == before[i],
            decreases old_height - row,
        {
            let mut pad = filled_row(size.0 - old_width, value);
            let ghost padded = pad@;
            assert(padded =~= Seq::new((size.0 - old_width) as nat, |j: int| value));
            let mut this = copy_row(&self.content[row]);
            this.append(&mut pad);
            self.content[row] = this;
            row += 1;
        }
        while self.content.len() < size.1
            invariant
                old_height <= self.content.len() <= size.1,
                old_width <= size.0,
                before.len() == old_height,
                rect(before, old_width as nat),
                forall|i: int| 0 <= i < old_height ==> #[trigger] self.content[i]@ == before[i] + Seq::new((size.0 - old_width) as nat, |j: int| value),
                forall|i: int| old_height <= i < self.content.len() ==> (#[trigger] self.content[i]).len() == size.0,
                forall|i: int, j: int| old_height <= i < self.content.len() && 0 <= j < size.0 ==> #[trigger] self.content[i][j] == value,
            decreases size.1 - self.content.len(),
        {
            let fresh = filled_row(size.0, value);
            self.content.push(fresh);
        }
        self.size = size;
        assert forall|i: int| 0 <= i < self@.len() implies (#[trigger] self@[i]).len() == self.width() by {
            if i < old_height {
                assert(before[i].len() == old_width);
            }
        }
        assert forall|i: int, j: int| 0 <= i < size.1 && 0 <= j < size.0 implies #[trigger] self@[i][j] == (
            if i < old_height && j < old_width {
                before[i][j]
            } else {
                value
            }) by {
            if i < old_height {
                assert(before[i].len() == old_width);
                assert(self.content[i]@ == before[i] + Seq::new((size.0 - old_width) as nat, |j: int| value));
            }
        }
    }

    /// Grows the matrix by `size.0` columns and `size.1` rows; every new entry
    /// is `value`.
    pub fn extend_by(&mut self, size: (usize, usize), value: T)
        requires
            old(self).wf(),
            old(self).width() + size.0 <= usize::MAX,
            old(self).height() + size.1 <= usize::MAX,
        ensures
            final(self).wf(),
            final(self).width() == old(self).width() + size.0,
            final(self).height() == old(self).height() + size.1,
            forall|i: int, j: int| 0 <= i < final(self).height() && 0 <= j < final(self).width() ==> #[trigger] final(self)@[i][j] == (
                if i < old(self).height() && j < old(self).width() {
                    old(self)@[i][j]
                } else {
                    value
                }),
    {
        self.extend_to((self.size.0 + size.0, self.size.1 + size.1), value);
    }
}

/// A copy of `row`.
pub(crate) fn copy_row<T: Copy>(row: &Vec<T>) -> (r: Vec<T>)
    ensures
        r@ == row@,
{
    let mut r: Vec<T> = Vec::with_capacity(row.len());
    let mut j: usize = 0;
    while j < row.len()
        invariant
            j <= row.len(),
            r.len() == j,
            forall|k: int| 0 <= k < j ==> #[trigger] r[k] == row[k],
        decreases row.len() - j,
    {
        r.push(row[j]);
        j += 1;
    }
    assert(r@ =~= row@);
    r
}

/// A row of `n` copies of `value`.
pub(crate) fn filled_row<T: Copy>(n: usize, value: T) -> (row: Vec<T>)
    ensures
        row.len() == n,
        forall|j: int| 0 <= j < n ==> #[trigger] row[j] == value,
{
    let mut row: Vec<T> = Vec::with_capacity(n);
    while row.len() < n
        invariant
            row.len() <= n,
            forall|j: int| 0 <= j < row.len() ==> #[trigger] row[j] == value,
        decreases n - row.len(),
    {
        row.push(value);
    }
    row
}

} // verus!
