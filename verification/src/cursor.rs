use vstd::arithmetic::div_mod::lemma_fundamental_div_mod;
use vstd::arithmetic::div_mod::lemma_fundamental_div_mod_converse;
use vstd::arithmetic::div_mod::lemma_mod_bound;
use vstd::prelude::*;

verus! {

/// A source of elements, drained from the front one element per call.
///
/// The sequence `pending` is what the producer has still to hand out, in
/// order. `produce` yields the head of that sequence, or `None` once it is
/// exhausted; exhaustion is terminal.
pub trait Producer: Sized {
    type Item;

    /// The elements still to be produced, in the order they will come.
    spec fn pending(&self) -> Seq<Self::Item>;

    fn produce(&mut self) -> (r: Option<Self::Item>)
        ensures
            old(self).pending().len() == 0 ==> {
                &&& r is None
                &&& final(self).pending() == old(self).pending()
            },
            old(self).pending().len() > 0 ==> {
                &&& r == Some(old(self).pending()[0])
                &&& final(self).pending() == old(self).pending().drop_first()
            },
    ;
}

/// One advance of a row-major coordinate: the column moves right by one and
/// wraps to the start of the next row exactly when it reaches `width`.
///
/// With `width == 0` the wrap test `col + 1 == 0` never holds, so the column
/// grows without ever wrapping and the row stays fixed.
pub open spec fn wrap_step(width: nat, pos: (nat, nat)) -> (nat, nat) {
    if pos.1 + 1 == width {
        ((pos.0 + 1) as nat, 0nat)
    } else {
        (pos.0, (pos.1 + 1) as nat)
    }
}

/// The coordinate a cursor of row width `width` holds after producing `k`
/// elements, starting from `(0, 0)`.
pub open spec fn coord_of(width: nat, k: nat) -> (nat, nat)
    decreases k,
{
    if k == 0 {
        (0nat, 0nat)
    } else {
        wrap_step(width, coord_of(width, (k - 1) as nat))
    }
}

/// Coordinate correctness: with a positive row width `w`, a cursor that
/// started at `(0, 0)` stands at row `k / w`, column `k % w` after producing
/// `k` elements, so the `k`-th produced element (counting from zero) is
/// tagged with exactly that coordinate.
pub proof fn lemma_coord_of_div_mod(width: nat, k: nat)
    requires
        width > 0,
    ensures
        coord_of(width, k) == (k / width, k % width),
    decreases k,
{
    if k == 0 {
        lemma_fundamental_div_mod_converse(0, width as int, 0, 0);
    } else {
        lemma_coord_of_div_mod(width, (k - 1) as nat);
        let q = ((k - 1) as nat) / width;
        let r = ((k - 1) as nat) % width;
        lemma_fundamental_div_mod(k as int - 1, width as int);
        lemma_mod_bound(k as int - 1, width as int);
        assert(k - 1 == q * width + r) by {
            assert(k as int - 1 == width as int * ((k as int - 1) / width as int) + (k as int - 1)
                % width as int);
        };
        if r + 1 == width {
            assert(k == (q + 1) * width + 0) by (nonlinear_arith)
                requires
                    k - 1 == q * width + r,
                    r + 1 == width,
            ;
            lemma_fundamental_div_mod_converse(k as int, width as int, q as int + 1, 0);
        } else {
            lemma_fundamental_div_mod_converse(k as int, width as int, q as int, r as int + 1);
        }
    }
}

/// A position-tracking traversal adapter: re-emits each element of the
/// wrapped producer tagged with the row-major `(row, column)` coordinate at
/// which it stands, given the configured row width.
///
/// The cursor performs no reordering or buffering; it only counts.
pub struct Cursor<I> {
    producer: I,
    breakat: usize,
    i: usize,
    j: usize,
}

impl<I: Producer> Cursor<I> {
    /// The elements the wrapped producer has still to hand out.
    pub closed spec fn pending(&self) -> Seq<I::Item> {
        self.producer.pending()
    }

    /// The row width the cursor wraps at.
    pub closed spec fn width(&self) -> usize {
        self.breakat
    }

    /// The row index the next produced element will be tagged with.
    pub closed spec fn row(&self) -> usize {
        self.i
    }

    /// The column index the next produced element will be tagged with.
    pub closed spec fn col(&self) -> usize {
        self.j
    }

    /// Wraps `producer`, starting at coordinate `(0, 0)`. No validation is
    /// performed: a `breakat` of zero is accepted and simply never wraps.
    pub fn new(producer: I, breakat: usize) -> (c: Self)
        ensures
            c.pending() == producer.pending(),
            c.width() == breakat,
            c.row() == 0,
            c.col() == 0,
    {
        Cursor { producer, breakat, i: 0, j: 0 }
    }

    /// Pulls the next element and tags it with the current coordinate, then
    /// advances the coordinate by `wrap_step`. Once the producer is
    /// exhausted, the cursor returns `None` forever and stands still.
    pub fn next(&mut self) -> (r: Option<((usize, usize), I::Item)>)
        requires
            old(self).pending().len() > 0 ==> old(self).row() < usize::MAX && old(self).col()
                < usize::MAX,
        ensures
            final(self).width() == old(self).width(),
            old(self).pending().len() == 0 ==> {
                &&& r is None
                &&& final(self).pending() == old(self).pending()
                &&& final(self).row() == old(self).row()
                &&& final(self).col() == old(self).col()
            },
            old(self).pending().len() > 0 ==> {
                &&& r == Some(((old(self).row(), old(self).col()), old(self).pending()[0]))
                &&& final(self).pending() == old(self).pending().drop_first()
                &&& (final(self).row() as nat, final(self).col() as nat) == wrap_step(
                    old(self).width() as nat,
                    (old(self).row() as nat, old(self).col() as nat),
                )
            },
    {
        match self.producer.produce() {
            None => None,
            Some(a) => {
                let i = self.i;
                let j = self.j;
                self.j = self.j + 1;
                if self.j == self.breakat {
                    self.i = self.i + 1;
                    self.j = 0;
                }
                Some(((i, j), a))
            },
        }
    }
}

/// A producer that owns its elements and hands them out by value, in order.
pub struct Entries<T> {
    items: Vec<T>,
}

impl<T> Entries<T> {
    /// Takes ownership of `items`; they will be produced front to back.
    pub fn new(items: Vec<T>) -> (p: Self)
        ensures
            p.pending() == items@,
    {
        Entries { items }
    }
}

impl<T> Producer for Entries<T> {
    type Item = T;

    closed spec fn pending(&self) -> Seq<T> {
        self.items@
    }

    fn produce(&mut self) -> (r: Option<T>) {
        if self.items.is_empty() {
            None
        } else {
            let a = self.items.remove(0);
            proof {
                assert(self.items@ =~= old(self).items@.drop_first());
            }
            Some(a)
        }
    }
}

/// A producer that borrows its elements and hands out references, in order.
pub struct EntriesRef<'a, T> {
    items: &'a Vec<T>,
    pos: usize,
}

impl<'a, T> EntriesRef<'a, T> {
    #[verifier::type_invariant]
    spec fn inv(self) -> bool {
        self.pos <= self.items@.len()
    }

    /// Borrows `items`; references to them are produced front to back.
    pub fn new(items: &'a Vec<T>) -> (p: Self)
        ensures
            p.pending().len() == items@.len(),
            forall|k: int| 0 <= k < items@.len() ==> *(#[trigger] p.pending()[k]) == items@[k],
    {
        EntriesRef { items, pos: 0 }
    }
}

impl<'a, T> Producer for EntriesRef<'a, T> {
    type Item = &'a T;

    closed spec fn pending(&self) -> Seq<&'a T> {
        self.items@.skip(self.pos as int).map(|k: int, v: T| &v)
    }

    fn produce(&mut self) -> (r: Option<&'a T>) {
        proof {
            use_type_invariant(&*self);
        }
        if self.pos < self.items.len() {
            let items: &'a Vec<T> = self.items;
            let a: &'a T = &items[self.pos];
            self.pos = self.pos + 1;
            proof {
                assert(self.items@.skip(self.pos as int) =~= old(
                    self,
                ).items@.skip(old(self).pos as int).drop_first());
            }
            Some(a)
        } else {
            None
        }
    }
}

} // verus!
