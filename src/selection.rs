use vstd::prelude::*;
use vstd::seq_lib::to_multiset_contains;

verus! {

/// How a cell is drawn.
#[derive(Clone, Copy, Debug, PartialEq, Eq, Structural)]
pub enum Look {
    Plain,
    Pointed,
    Selected,
}

/// An instruction to draw `cell` (a 1-based cell index) with `look`.
#[derive(Clone, Copy, Debug, PartialEq, Eq, Structural)]
pub struct Repaint {
    pub cell: usize,
    pub look: Look,
}

/// A cell whose box the cursor ray meets. `near` orders the near hit
/// distances: a smaller key is a nearer hit.
#[derive(Clone, Copy, Debug, PartialEq, Eq, Structural)]
pub struct Hit {
    pub cell: usize,
    pub near: u32,
}

/// `hits[i]` is the closest hit: no hit is nearer, and every earlier hit is
/// farther (the first of equally near hits wins).
pub open spec fn is_closest(hits: Seq<Hit>, i: int) -> bool {
    &&& 0 <= i < hits.len()
    &&& forall|j: int| 0 <= j < hits.len() ==> hits[i].near <= #[trigger] hits[j].near
    &&& forall|j: int| 0 <= j < i ==> hits[i].near < #[trigger] hits[j].near
}

/// The cell of the closest hit, if there is any hit.
pub open spec fn closest_cell(hits: Seq<Hit>) -> Option<usize> {
    if hits.len() == 0 {
        None
    } else {
        Some(hits[choose|i: int| is_closest(hits, i)].cell)
    }
}

/// A nonempty list of hits has a closest one, and only one.
pub proof fn lemma_closest_exists(hits: Seq<Hit>)
    requires
        hits.len() > 0,
    ensures
        exists|i: int| is_closest(hits, i),
        forall|i: int, j: int| is_closest(hits, i) && is_closest(hits, j) ==> i == j,
    decreases hits.len(),
{
    let n = hits.len() as int;
    if n == 1 {
        assert(is_closest(hits, 0));
    } else {
        let front = hits.drop_last();
        lemma_closest_exists(front);
        let i0 = choose|i: int| is_closest(front, i);
        assert(forall|j: int| 0 <= j < n - 1 ==> front[j] == hits[j]);
        if hits[n - 1].near < hits[i0].near {
            assert(is_closest(hits, n - 1));
        } else {
            assert(is_closest(hits, i0));
        }
    }
}

/// The choice of the closest hit does not depend on the order in which the
/// hits are listed, as long as no two hits are equally near.
pub proof fn lemma_closest_order_free(a: Seq<Hit>, b: Seq<Hit>)
    requires
        a.to_multiset() == b.to_multiset(),
        forall|i: int, j: int|
            0 <= i < a.len() && 0 <= j < a.len() && i != j ==> a[i].near != a[j].near,
    ensures
        closest_cell(a) == closest_cell(b),
{
    assert(a.len() == b.len()) by {
        a.to_multiset_ensures();
        b.to_multiset_ensures();
    }
    if a.len() > 0 {
        lemma_closest_exists(a);
        lemma_closest_exists(b);
        let i = choose|i: int| is_closest(a, i);
        let j = choose|j: int| is_closest(b, j);
        assert(a.contains(a[i]));
        to_multiset_contains(a, a[i]);
        to_multiset_contains(b, a[i]);
        assert(b.contains(a[i]));
        let ib = choose|k: int| 0 <= k < b.len() && b[k] == a[i];
        assert(b.contains(b[j]));
        to_multiset_contains(a, b[j]);
        to_multiset_contains(b, b[j]);
        assert(a.contains(b[j]));
        let ja = choose|k: int| 0 <= k < a.len() && a[k] == b[j];
        assert(a[i].near <= a[ja].near);
        assert(b[j].near <= b[ib].near);
        assert(ja == i);
    }
}

/// Among `hits`, the cell of the closest one; `None` when there is no hit.
pub fn closest_hit(hits: &Vec<Hit>) -> (r: Option<usize>)
    ensures
        r == closest_cell(hits@),
{
    if hits.len() == 0 {
        return None;
    }
    let mut best: usize = 0;
    let mut k: usize = 1;
    while k < hits.len()
        invariant
            1 <= k <= hits@.len(),
            is_closest(hits@.take(k as int), best as int),
        decreases hits.len() - k,
    {
        let ghost front = hits@.take(k as int);
        if hits[k].near < hits[best].near {
            best = k;
        }
        proof {
            let next = hits@.take(k + 1);
            assert(forall|j: int| 0 <= j < k ==> next[j] == front[j]);
            assert(is_closest(next, best as int));
        }
        k = k + 1;
    }
    proof {
        assert(hits@.take(k as int) == hits@);
        lemma_closest_exists(hits@);
    }
    Some(hits[best].cell)
}

/// Repainting `cell`, if there is one, with `look`.
pub open spec fn paint(cell: Option<usize>, look: Look) -> Seq<Repaint> {
    match cell {
        Some(c) => seq![Repaint { cell: c, look }],
        None => seq![],
    }
}

fn paint_into(out: &mut Vec<Repaint>, cell: Option<usize>, look: Look)
    ensures
        final(out)@ == old(out)@ + paint(cell, look),
{
    match cell {
        Some(c) => {
            out.push(Repaint { cell: c, look });
        },
        None => {},
    }
    proof {
        assert(final(out)@ =~= old(out)@ + paint(cell, look));
    }
}

/// The cell under the cursor and the selected cell, both 1-based cell
/// indices.
#[derive(Clone, Copy, Debug, PartialEq, Eq, Structural)]
pub struct SelectionState {
    pub pointed: Option<usize>,
    pub selected: Option<usize>,
}

impl SelectionState {
    /// Nothing pointed at, nothing selected.
    pub fn new() -> (r: Self)
        ensures
            r.pointed.is_none(),
            r.selected.is_none(),
    {
        SelectionState { pointed: None, selected: None }
    }

    /// Makes `closest` the pointed-at cell. When it changes, the new cell is
    /// drawn as pointed at and then the former one plainly; the selection
    /// is kept.
    pub fn update_pointed(&mut self, closest: Option<usize>) -> (r: Vec<Repaint>)
        ensures
            final(self).pointed == closest,
            final(self).selected == old(self).selected,
            r@ == (if closest != old(self).pointed {
                paint(closest, Look::Pointed) + paint(old(self).pointed, Look::Plain)
            } else {
                Seq::<Repaint>::empty()
            }),
    {
        let mut r: Vec<Repaint> = Vec::new();
        if closest != self.pointed {
            paint_into(&mut r, closest, Look::Pointed);
            paint_into(&mut r, self.pointed, Look::Plain);
            self.pointed = closest;
        }
        proof {
            assert(r@ =~= (if closest != old(self).pointed {
                paint(closest, Look::Pointed) + paint(old(self).pointed, Look::Plain)
            } else {
                Seq::<Repaint>::empty()
            }));
        }
        r
    }

    /// The select input: the selected cell, if any, is drawn plainly and
    /// released, then the pointed-at cell, if any, becomes the selection and
    /// is drawn as selected.
    pub fn toggle_select(&mut self) -> (r: Vec<Repaint>)
        ensures
            final(self).pointed == old(self).pointed,
            final(self).selected == old(self).pointed,
            r@ == paint(old(self).selected, Look::Plain) + paint(old(self).pointed, Look::Selected),
    {
        let mut r: Vec<Repaint> = Vec::new();
        paint_into(&mut r, self.selected, Look::Plain);
        self.selected = None;
        paint_into(&mut r, self.pointed, Look::Selected);
        self.selected = self.pointed;
        proof {
            assert(r@ =~= paint(old(self).selected, Look::Plain) + paint(
                old(self).pointed,
                Look::Selected,
            ));
        }
        r
    }
}

} // verus!
