mod cursor;

pub use cursor::coord_of;
pub use cursor::lemma_coord_of_div_mod;
pub use cursor::wrap_step;
pub use cursor::Cursor;
pub use cursor::Entries;
pub use cursor::EntriesRef;
pub use cursor::Producer;

use vstd::arithmetic::div_mod::lemma_fundamental_div_mod;
use vstd::arithmetic::div_mod::lemma_fundamental_div_mod_converse;
use vstd::arithmetic::div_mod::lemma_mod_bound;
use vstd::arithmetic::div_mod::lemma_multiply_divide_lt;
use vstd::prelude::*;
use vstd::std_specs::ops::AddSpec;

verus! {

/// A shape fault detected when building a matrix or combining two of them.
#[derive(Debug, PartialEq, Eq, Structural)]
pub enum ShapeError {
    /// The flat element count is not a multiple of the declared width; the
    /// payload is how many elements are missing to complete the last row.
    IncompleteRow { missing: usize },
    /// Two operands do not have the same width or the same element count.
    SizeMismatch,
    /// The declared width is zero although elements were supplied, so no row
    /// count can be derived.
    InvalidWidth,
}

/// Whether a flat sequence of `n` elements fills whole rows of width
/// `breakat`: a zero width carries no rows, so it only fits zero elements.
pub open spec fn entries_fit(breakat: nat, n: nat) -> bool {
    if breakat == 0 {
        n == 0
    } else {
        n % breakat == 0
    }
}

/// A fixed-width two-dimensional container with row-major flat storage: the
/// element at row `i`, column `j` stands at flat index `i * cols + j`.
#[derive(Debug)]
pub struct Matrix<T> {
    rows: usize,
    cols: usize,
    entries: Vec<T>,
}

impl<T> View for Matrix<T> {
    type V = Seq<T>;

    /// The flat row-major storage.
    closed spec fn view(&self) -> Seq<T> {
        self.entries@
    }
}

impl<T> Matrix<T> {
    /// The row count.
    pub closed spec fn spec_rows(&self) -> nat {
        self.rows as nat
    }

    /// The column count, equally the row width.
    pub closed spec fn spec_cols(&self) -> nat {
        self.cols as nat
    }

    /// Well-formedness: the storage holds exactly `rows * cols` elements.
    pub open spec fn wf(&self) -> bool {
        self@.len() == self.spec_rows() * self.spec_cols()
    }

    /// The element at row `i`, column `j`.
    pub open spec fn at(&self, i: int, j: int) -> T {
        self@[i * self.spec_cols() as int + j]
    }

    /// Builds a `rows` by `cols` matrix whose every element is the type's
    /// default value.
    pub fn with_dimensions(rows: usize, cols: usize) -> (m: Self) where T: Default
        requires
            rows * cols <= usize::MAX,
        ensures
            m.wf(),
            m.spec_rows() == rows,
            m.spec_cols() == cols,
            m@.len() == rows * cols,
            forall|k: int| 0 <= k < m@.len() ==> call_ensures(T::default, (), #[trigger] m@[k]),
    {
        let n = rows * cols;
        let mut entries: Vec<T> = Vec::new();
        while entries.len() < n
            invariant
                entries@.len() <= n,
                forall|k: int|
                    0 <= k < entries@.len() ==> call_ensures(T::default, (), #[trigger] entries@[k]),
            decreases n - entries@.len(),
        {
            entries.push(T::default());
        }
        Matrix { rows, cols, entries }
    }

    /// Builds a matrix of row width `breakat` from a flat row-major sequence,
    /// storing the sequence verbatim; the row count is derived, never stored
    /// on its own.
    ///
    /// Fails with `IncompleteRow` when the element count does not divide into
    /// whole rows (reporting how many elements the last row lacks), and with
    /// `InvalidWidth` when the width is zero although elements were supplied;
    /// a zero width with no elements builds the empty matrix.
    pub fn with_entries(breakat: usize, entries: Vec<T>) -> (r: Result<Self, ShapeError>)
        ensures
            r is Ok <==> entries_fit(breakat as nat, entries@.len()),
            r matches Ok(m) ==> {
                &&& m.wf()
                &&& m@ == entries@
                &&& m.spec_cols() == if breakat == 0 { 0nat } else { breakat as nat }
                &&& m.spec_rows() == if breakat == 0 { 0nat } else { entries@.len() / breakat as nat }
            },
            breakat == 0 && entries@.len() > 0 ==> r == Err::<Self, ShapeError>(
                ShapeError::InvalidWidth,
            ),
            breakat > 0 && entries@.len() % breakat as nat != 0 ==> (r matches Err(e) && e == (
            ShapeError::IncompleteRow {
                missing: (breakat - entries@.len() as int % breakat as int) as usize,
            })),
    {
        if breakat == 0 {
            if entries.len() == 0 {
                Ok(Matrix { rows: 0, cols: 0, entries })
            } else {
                Err(ShapeError::InvalidWidth)
            }
        } else {
            let rest = entries.len() % breakat;
            if rest != 0 {
                Err(ShapeError::IncompleteRow { missing: breakat - rest })
            } else {
                let rows = entries.len() / breakat;
                proof {
                    lemma_fundamental_div_mod(entries@.len() as int, breakat as int);
                    assert(rows * breakat == breakat * rows) by (nonlinear_arith);
                    assert(entries@.len() == rows * breakat);
                }
                Ok(Matrix { rows, cols: breakat, entries })
            }
        }
    }

    /// Read-only access to the flat row-major storage.
    pub fn entries(&self) -> (r: &Vec<T>)
        ensures
            r@ == self@,
    {
        &self.entries
    }

    /// Whether the matrix has no rows or no columns.
    pub fn is_empty(&self) -> (r: bool)
        ensures
            r <==> (self.spec_rows() == 0 || self.spec_cols() == 0),
    {
        self.rows == 0 || self.cols == 0
    }

    /// Whether the matrix has exactly one row.
    pub fn is_row_vector(&self) -> (r: bool)
        ensures
            r <==> self.spec_rows() == 1,
    {
        self.rows == 1
    }

    /// Whether the matrix has exactly one column.
    pub fn is_column(&self) -> (r: bool)
        ensures
            r <==> self.spec_cols() == 1,
    {
        self.cols == 1
    }

    /// Whether the matrix has as many rows as columns.
    pub fn is_square(&self) -> (r: bool)
        ensures
            r <==> self.spec_rows() == self.spec_cols(),
    {
        self.rows == self.cols
    }

    /// Borrowing traversal: a cursor that yields every stored element by
    /// reference in row-major order, each tagged with its coordinate,
    /// starting at `(0, 0)`. Each call starts a fresh traversal.
    pub fn iter<'a>(&'a self) -> (c: Cursor<EntriesRef<'a, T>>)
        ensures
            c.width() as nat == self.spec_cols(),
            c.row() == 0,
            c.col() == 0,
            c.pending().len() == self@.len(),
            forall|k: int| 0 <= k < self@.len() ==> *(#[trigger] c.pending()[k]) == self@[k],
    {
        Cursor::new(EntriesRef::new(&self.entries), self.cols)
    }

    /// Consuming traversal: takes the matrix apart and yields every element
    /// by value in row-major order, each tagged with its coordinate.
    pub fn into_iter(self) -> (c: Cursor<Entries<T>>)
        ensures
            c.width() as nat == self.spec_cols(),
            c.row() == 0,
            c.col() == 0,
            c.pending() == self@,
    {
        let cols = self.cols;
        Cursor::new(Entries::new(self.entries), cols)
    }
}

/// A lazy traversal of a matrix diagonal: yields a reference to each element
/// whose row index equals its column index, in order.
pub struct Diagonal<'a, T> {
    entries: &'a Vec<T>,
    cols: usize,
    limit: usize,
    d: usize,
}

impl<'a, T> Diagonal<'a, T> {
    #[verifier::type_invariant]
    spec fn inv(self) -> bool {
        &&& self.d <= self.limit
        &&& self.limit > 0 ==> {
            &&& self.limit * self.cols <= self.entries@.len()
            &&& self.limit <= self.cols
        }
    }

    /// The whole diagonal this traversal yields.
    pub closed spec fn target(&self) -> Seq<T> {
        Seq::new(self.limit as nat, |x: int| self.entries@[x * self.cols as int + x])
    }

    /// How many diagonal elements have been yielded so far.
    pub closed spec fn pos(&self) -> nat {
        self.d as nat
    }

    /// Yields a reference to the next diagonal element, or `None` once the
    /// diagonal is exhausted.
    pub fn next(&mut self) -> (r: Option<&'a T>)
        ensures
            final(self).target() == old(self).target(),
            old(self).pos() >= old(self).target().len() ==> {
                &&& r is None
                &&& *final(self) == *old(self)
            },
            old(self).pos() < old(self).target().len() ==> {
                &&& final(self).pos() == old(self).pos() + 1
                &&& (r matches Some(e) && *e == old(self).target()[old(self).pos() as int])
            },
    {
        proof {
            use_type_invariant(&*self);
        }
        if self.d < self.limit {
            let d = self.d;
            let entries: &'a Vec<T> = self.entries;
            let n = entries.len();
            proof {
                assert((d as int * self.cols as int + d as int) < n as int) by (nonlinear_arith)
                    requires
                        0 <= d as int,
                        d as int + 1 <= self.limit as int,
                        (self.limit as int * self.cols as int) <= n as int,
                        self.limit <= self.cols,
                ;
            }
            let e: &'a T = &entries[d * self.cols + d];
            self.d = d + 1;
            Some(e)
        } else {
            None
        }
    }
}

impl<T> Matrix<T> {
    /// The diagonal, collected front to back: references to the elements at
    /// equal row and column index; its length is the smaller of the two
    /// dimensions.
    pub fn diagonal<'a>(&'a self) -> (r: Vec<&'a T>)
        requires
            self.wf(),
        ensures
            r@.len() == if self.spec_rows() <= self.spec_cols() {
                self.spec_rows()
            } else {
                self.spec_cols()
            },
            forall|x: int| 0 <= x < r@.len() ==> *(#[trigger] r@[x]) == self.at(x, x),
    {
        let limit = if self.rows <= self.cols {
            self.rows
        } else {
            self.cols
        };
        proof {
            assert(limit * self.spec_cols() <= self.spec_rows() * self.spec_cols())
                by (nonlinear_arith)
                requires
                    limit as int <= self.spec_rows() as int,
                    self.spec_cols() as int >= 0,
            ;
        }
        let mut walker = Diagonal { entries: &self.entries, cols: self.cols, limit, d: 0 };
        let mut out: Vec<&'a T> = Vec::new();
        while out.len() < limit
            invariant
                limit <= self.spec_cols() || limit <= self.spec_rows(),
                walker.target().len() == limit,
                walker.pos() == out@.len(),
                out@.len() <= limit,
                forall|x: int|
                    0 <= x < out@.len() ==> *(#[trigger] out@[x]) == walker.target()[x],
                forall|x: int|
                    0 <= x < limit ==> #[trigger] walker.target()[x] == self.at(x, x),
            decreases limit - out@.len(),
        {
            match walker.next() {
                Some(e) => {
                    out.push(e);
                },
                None => {
                    proof {
                        assert(false);
                    }
                },
            }
        }
        out
    }
}

/// A coordinate-tracking mutable traversal over a matrix.
///
/// A mutable borrow cannot live in a field here, so the cursor holds only the
/// position and the traversed matrix's shape; each step is handed the matrix
/// anew and yields a mutable reference into its storage, tagged with the
/// row-major coordinate, exactly as the borrowing traversal tags its
/// references.
pub struct CursorMut {
    breakat: usize,
    n: usize,
    k: usize,
    i: usize,
    j: usize,
}

impl CursorMut {
    #[verifier::type_invariant]
    spec fn inv(self) -> bool {
        &&& self.k <= self.n
        &&& self.i <= self.k
        &&& self.j <= self.k
        &&& (self.i as nat, self.j as nat) == coord_of(self.breakat as nat, self.k as nat)
    }

    /// The row width the cursor wraps at.
    pub closed spec fn width(&self) -> usize {
        self.breakat
    }

    /// How many elements the traversal holds in all.
    pub closed spec fn len(&self) -> nat {
        self.n as nat
    }

    /// How many elements have been yielded so far.
    pub closed spec fn produced(&self) -> nat {
        self.k as nat
    }

    /// The row index the next yielded element will be tagged with.
    pub closed spec fn row(&self) -> usize {
        self.i
    }

    /// The column index the next yielded element will be tagged with.
    pub closed spec fn col(&self) -> usize {
        self.j
    }

    /// Yields a mutable reference to the next element of `m` in row-major
    /// order, tagged with its coordinate, or `None` once every element has
    /// been visited. Writing through the reference changes that one position
    /// of the storage and nothing else; the shape never changes.
    pub fn next<'a, T>(&mut self, m: &'a mut Matrix<T>) -> (r: Option<((usize, usize), &'a mut T)>)
        requires
            old(m).wf(),
            old(self).width() as nat == old(m).spec_cols(),
            old(self).len() == old(m)@.len(),
        ensures
            final(self).width() == old(self).width(),
            final(self).len() == old(self).len(),
            old(self).produced() >= old(self).len() ==> {
                &&& r is None
                &&& *final(self) == *old(self)
                &&& *final(m) == *old(m)
            },
            old(self).produced() < old(self).len() ==> {
                &&& final(self).produced() == old(self).produced() + 1
                &&& (old(self).row() as nat, old(self).col() as nat) == coord_of(
                    old(self).width() as nat,
                    old(self).produced(),
                )
                &&& (final(self).row() as nat, final(self).col() as nat) == wrap_step(
                    old(self).width() as nat,
                    (old(self).row() as nat, old(self).col() as nat),
                )
                &&& (r matches Some(p) && p.0 == (old(self).row(), old(self).col()) && *(p.1)
                    == old(m)@[old(self).produced() as int] && final(m)@ == old(m)@.update(
                    old(self).produced() as int,
                    *final(p.1),
                ))
                &&& final(m).wf()
                &&& final(m).spec_rows() == old(m).spec_rows()
                &&& final(m).spec_cols() == old(m).spec_cols()
            },
    {
        proof {
            use_type_invariant(&*self);
        }
        if self.k < self.n {
            let i = self.i;
            let j = self.j;
            let k = self.k;
            if j + 1 == self.breakat {
                *self = CursorMut { breakat: self.breakat, n: self.n, k: k + 1, i: i + 1, j: 0 };
            } else {
                *self = CursorMut { breakat: self.breakat, n: self.n, k: k + 1, i, j: j + 1 };
            }
            let e = &mut m.entries[k];
            Some(((i, j), e))
        } else {
            None
        }
    }
}

impl<T> Matrix<T> {
    /// Mutable traversal: a cursor that walks the matrix in row-major order
    /// and yields each element's coordinate with a mutable reference to it;
    /// see [`CursorMut::next`]. Each call starts a fresh traversal.
    pub fn iter_mut(&mut self) -> (c: CursorMut)
        ensures
            *final(self) == *old(self),
            c.width() as nat == old(self).spec_cols(),
            c.len() == old(self)@.len(),
            c.produced() == 0,
            c.row() == 0,
            c.col() == 0,
    {
        CursorMut { breakat: self.cols, n: self.entries.len(), k: 0, i: 0, j: 0 }
    }
}

impl Matrix<i32> {
    /// Whether the matrix is an identity: it is square, every diagonal
    /// element is one, and every off-diagonal element is zero. A square
    /// matrix with no elements satisfies the entry conditions vacuously.
    pub open spec fn spec_is_identity(&self) -> bool {
        &&& self.spec_rows() == self.spec_cols()
        &&& forall|i: int, j: int|
            0 <= i < self.spec_rows() && 0 <= j < self.spec_cols() ==> #[trigger] self.at(i, j)
                == (if i == j {
                1i32
            } else {
                0i32
            })
    }

    /// Decides `spec_is_identity`: rejects a non-square shape outright, then
    /// walks every element with a borrowing cursor and tests it against its
    /// coordinate.
    pub fn is_identity(&self) -> (r: bool)
        requires
            self.wf(),
        ensures
            r == self.spec_is_identity(),
    {
        if self.rows != self.cols {
            return false;
        }
        if self.cols == 0 {
            return true;
        }
        let w = self.cols;
        let n = self.entries.len();
        let ghost rows = self.spec_rows() as int;
        let mut cur = self.iter();
        let mut k: usize = 0;
        while k < n
            invariant
                0 < w,
                w as nat == self.spec_cols(),
                rows == self.spec_rows() as int,
                n == self@.len(),
                self.wf(),
                k <= n,
                cur.pending().len() == n - k,
                forall|x: int|
                    0 <= x < n - k ==> *(#[trigger] cur.pending()[x]) == self@[k + x],
                cur.width() == w,
                (cur.row() as nat, cur.col() as nat) == coord_of(w as nat, k as nat),
                forall|m: int|
                    0 <= m < k ==> #[trigger] self@[m] == (if m / (w as int) == m % (w as int) {
                        1i32
                    } else {
                        0i32
                    }),
            decreases n - k,
        {
            proof {
                lemma_coord_of_div_mod(w as nat, k as nat);
                lemma_mod_bound(k as int, w as int);
                assert((k as int) < w as int * n as int) by (nonlinear_arith)
                    requires
                        (k as int) < n as int,
                        1 <= w as int,
                ;
                lemma_multiply_divide_lt(k as int, w as int, n as int);
            }
            let ghost pend = cur.pending();
            match cur.next() {
                Some(((i, j), e)) => {
                    proof {
                        assert(i as int == k as int / w as int && j as int == k as int
                            % w as int);
                        assert((k as int) < w as int * rows) by (nonlinear_arith)
                            requires
                                (k as int) < n as int,
                                n as int == rows * w as int,
                        ;
                        lemma_multiply_divide_lt(k as int, w as int, rows);
                        lemma_fundamental_div_mod(k as int, w as int);
                        assert(i as int * w as int == w as int * i as int)
                            by (nonlinear_arith);
                        assert(i as int * w as int + j as int == k as int);
                        assert(self.at(i as int, j as int) == self@[k as int]);
                    }
                    let ok = if i == j {
                        *e == 1
                    } else {
                        *e == 0
                    };
                    if !ok {
                        return false;
                    }
                    proof {
                        assert forall|x: int|
                            0 <= x < n - (k + 1) implies *(#[trigger] cur.pending()[x])
                            == self@[k + 1 + x] by {
                            assert(pend.drop_first()[x] == pend[x + 1]);
                        };
                    }
                },
                None => {
                    proof {
                        assert(false);
                    }
                },
            }
            k = k + 1;
        }
        proof {
            assert forall|i: int, j: int|
                0 <= i < self.spec_rows() && 0 <= j
                    < self.spec_cols() implies #[trigger] self.at(i, j) == (if i == j {
                1i32
            } else {
                0i32
            }) by {
                let kk = i * w as int + j;
                assert(0 <= kk && kk < n as int) by (nonlinear_arith)
                    requires
                        kk == i * w as int + j,
                        0 <= i && i <= rows - 1,
                        0 <= j && j <= w as int - 1,
                        n as int == rows * w as int,
                        0 < w as int,
                ;
                lemma_fundamental_div_mod_converse(kk, w as int, i, j);
            };
        }
        true
    }
}

/// The elementwise sums of two equally long sequences, element addition
/// taken from the element type's own `+`.
pub open spec fn matrix_sum<T: core::ops::Add<Output = T>>(a: Seq<T>, b: Seq<T>) -> Seq<T> {
    Seq::new(a.len(), |k: int| a[k].add_spec(b[k]))
}

impl<T: core::ops::Add<Output = T>> Matrix<T> {
    /// Elementwise addition, consuming both operands: fails with
    /// `SizeMismatch` when the widths or the element counts differ, and
    /// otherwise pairs the two storages position by position and builds a
    /// matrix of the same shape from the sums.
    pub fn add(self, rhs: Self) -> (r: Result<Self, ShapeError>)
        requires
            self.wf(),
            rhs.wf(),
            self.spec_cols() == rhs.spec_cols() && self@.len() == rhs@.len() ==> forall|k: int|
                0 <= k < self@.len() ==> (#[trigger] self@[k]).add_req(rhs@[k]),
        ensures
            r is Ok <==> (self.spec_cols() == rhs.spec_cols() && self@.len() == rhs@.len()),
            r is Err ==> r == Err::<Self, ShapeError>(ShapeError::SizeMismatch),
            r matches Ok(m) ==> {
                &&& m.wf()
                &&& m.spec_rows() == self.spec_rows()
                &&& m.spec_cols() == self.spec_cols()
                &&& m@.len() == self@.len()
                &&& forall|k: int|
                    0 <= k < self@.len() ==> call_ensures(
                        T::add,
                        (self@[k], rhs@[k]),
                        #[trigger] m@[k],
                    )
                &&& (T::obeys_add_spec() ==> m@ == matrix_sum(self@, rhs@))
            },
    {
        if self.cols != rhs.cols || self.entries.len() != rhs.entries.len() {
            return Err(ShapeError::SizeMismatch);
        }
        let rows = self.rows;
        let cols = self.cols;
        let ghost ga = self.entries@;
        let ghost gb = rhs.entries@;
        let mut a = self.entries;
        let mut b = rhs.entries;
        let mut sum: Vec<T> = Vec::new();
        while a.len() > 0
            invariant
                ga.len() == gb.len(),
                sum@.len() + a@.len() == ga.len(),
                a@ == ga.skip(sum@.len() as int),
                b@ == gb.skip(sum@.len() as int),
                forall|k: int| 0 <= k < ga.len() ==> (#[trigger] ga[k]).add_req(gb[k]),
                forall|k: int|
                    0 <= k < sum@.len() ==> call_ensures(T::add, (ga[k], gb[k]), #[trigger] sum@[k]),
                T::obeys_add_spec() ==> sum@ == matrix_sum(ga, gb).take(sum@.len() as int),
            decreases a@.len(),
        {
            let x = a.remove(0);
            let y = b.remove(0);
            sum.push(x + y);
            proof {
                if T::obeys_add_spec() {
                    assert(sum@ =~= matrix_sum(ga, gb).take(sum@.len() as int));
                }
            }
        }
        proof {
            if T::obeys_add_spec() {
                assert(sum@ =~= matrix_sum(ga, gb));
            }
        }
        Ok(Matrix { rows, cols, entries: sum })
    }

    /// In-place elementwise addition, consuming the right-hand operand:
    /// fails with `SizeMismatch` when the widths or the element counts
    /// differ, leaving the receiver untouched, and otherwise adds each
    /// element the right-hand side's consuming traversal yields into the
    /// corresponding slot of the receiver, whose shape never changes.
    ///
    /// Equivalence with `add`: on success both leave storage equal to
    /// `matrix_sum` of the two old storages, under the same shape condition.
    pub fn add_assign(&mut self, rhs: Self) -> (r: Result<(), ShapeError>)
        requires
            old(self).wf(),
            rhs.wf(),
            old(self).spec_cols() == rhs.spec_cols() && old(self)@.len() == rhs@.len()
                ==> forall|k: int|
                0 <= k < old(self)@.len() ==> (#[trigger] old(self)@[k]).add_req(rhs@[k]),
        ensures
            r is Ok <==> (old(self).spec_cols() == rhs.spec_cols() && old(self)@.len()
                == rhs@.len()),
            r is Err ==> r == Err::<(), ShapeError>(ShapeError::SizeMismatch) && *final(self)
                == *old(self),
            r is Ok ==> {
                &&& final(self).wf()
                &&& final(self).spec_rows() == old(self).spec_rows()
                &&& final(self).spec_cols() == old(self).spec_cols()
                &&& final(self)@.len() == old(self)@.len()
                &&& forall|k: int|
                    0 <= k < old(self)@.len() ==> call_ensures(
                        T::add,
                        (old(self)@[k], rhs@[k]),
                        #[trigger] final(self)@[k],
                    )
                &&& (T::obeys_add_spec() ==> final(self)@ == matrix_sum(old(self)@, rhs@))
            },
    {
        if self.cols != rhs.cols || self.entries.len() != rhs.entries.len() {
            return Err(ShapeError::SizeMismatch);
        }
        let ghost ga = self.entries@;
        let ghost gb = rhs.entries@;
        let n = self.entries.len();
        let mut rit = rhs.into_iter();
        let mut k: usize = 0;
        while k < n
            invariant
                k <= n,
                n == ga.len(),
                ga.len() == gb.len(),
                self.entries@.len() == n,
                self.spec_rows() == old(self).spec_rows(),
                self.spec_cols() == old(self).spec_cols(),
                rit.pending() == gb.skip(k as int),
                rit.row() <= k,
                rit.col() <= k,
                self.entries@.skip(k as int) == ga.skip(k as int),
                forall|x: int| 0 <= x < ga.len() ==> (#[trigger] ga[x]).add_req(gb[x]),
                forall|x: int|
                    0 <= x < k ==> call_ensures(
                        T::add,
                        (ga[x], gb[x]),
                        #[trigger] self.entries@[x],
                    ),
                T::obeys_add_spec() ==> self.entries@.take(k as int) == matrix_sum(
                    ga,
                    gb,
                ).take(k as int),
            decreases n - k,
        {
            match rit.next() {
                Some((_, y)) => {
                    proof {
                        assert(self.entries@[k as int] == ga.skip(k as int)[0]);
                    }
                    let ghost pre = self.entries@;
                    let x = self.entries.remove(k);
                    let s = x + y;
                    self.entries.insert(k, s);
                    proof {
                        vstd::seq_lib::lemma_update_is_remove_insert(pre, k as int, s);
                        assert(self.entries@ == pre.update(k as int, s));
                        assert forall|i: int| 0 <= i < n - (k + 1) implies #[trigger] (
                        self.entries@.skip(k as int + 1)[i]) == ga.skip(k as int + 1)[i] by {
                            assert(pre.skip(k as int)[i + 1] == ga.skip(k as int)[i + 1]);
                        };
                        assert(self.entries@.skip(k as int + 1) =~= ga.skip(k as int + 1));
                        if T::obeys_add_spec() {
                            assert(self.entries@.take(k as int + 1) =~= matrix_sum(ga, gb).take(
                                k as int + 1,
                            ));
                        }
                    }
                    k = k + 1;
                },
                None => {
                    proof {
                        assert(false);
                    }
                },
            }
        }
        proof {
            if T::obeys_add_spec() {
                assert forall|i: int| 0 <= i < n implies #[trigger] self.entries@[i] == matrix_sum(
                    ga,
                    gb,
                )[i] by {
                    assert(self.entries@.take(n as int)[i] == matrix_sum(ga, gb).take(n as int)[i]);
                };
                assert(self.entries@ =~= matrix_sum(ga, gb));
            }
        }
        Ok(())
    }
}

/// Round trip: a consuming traversal of a well-formed matrix yields exactly
/// the flat storage, in order, and feeding that storage back to
/// `with_entries` with the matrix's own width is accepted, stores it
/// verbatim again, and (for a positive width) derives the same row count.
pub proof fn lemma_round_trip<T>(m: Matrix<T>)
    requires
        m.wf(),
    ensures
        entries_fit(m.spec_cols(), m@.len()),
        m.spec_cols() > 0 ==> m@.len() / m.spec_cols() == m.spec_rows(),
{
    if m.spec_cols() > 0 {
        lemma_fundamental_div_mod_converse(
            m@.len() as int,
            m.spec_cols() as int,
            m.spec_rows() as int,
            0,
        );
    } else {
        assert(m@.len() == m.spec_rows() * 0);
    }
}

/// In-place addition equivalence: `add` and `add_assign` succeed under the
/// same shape condition, and whenever the element type's `+` obeys its
/// specification, both pin the resulting storage to `matrix_sum` of the two
/// old storages. So a successful `add` result and the storage `add_assign`
/// leaves behind are equal, for any compatible operands.
pub proof fn lemma_add_assign_matches_add<T: core::ops::Add<Output = T>>(
    a: Matrix<T>,
    b: Matrix<T>,
    sum: Matrix<T>,
    assigned: Seq<T>,
)
    requires
        T::obeys_add_spec(),
        call_ensures(Matrix::<T>::add, (a, b), Ok(sum)),
        assigned == matrix_sum(a@, b@),
    ensures
        sum@ == assigned,
{
}

} // verus!
