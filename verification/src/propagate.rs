//! Propagation of cortical labels along streamlines.
//!
//! Three steps, each reading only what the step before it made:
//! every streamline takes the label of the last cortical voxel it visits and
//! leaves one observation of it at each of its points; every voxel with
//! observations chooses the label with the highest score; and the choices
//! of the voxels that may be filled are the result.
use std::collections::HashMap;
use vstd::prelude::*;
use crate::binary32::{
    divide, eq, from_i32, from_int, from_u64, is_nan, le, lemma_count_is_finite,
    lemma_quotient_self, lemma_results_non_negative, lemma_share_in_unit_range,
    lemma_sum_with_one_positive, less, lt,
    multiply, non_negative, plus, positive_finite, product, quotient, same, sum, to_i32,
    truncated,
};
use crate::nifti::{lemma_digit, lemma_offset_in_range, lemma_offset_injective, GridView,
    NIfTI1Data};
use crate::trackvis::{paths, Fiber, Position};

verus! {

broadcast use vstd::std_specs::hash::group_hash_axioms;

/// A closed range of element values.
#[derive(Clone, Copy, Debug, PartialEq, Eq)]
pub struct Band {
    pub low: u32,
    pub high: u32,
}

impl Band {
    /// Whether a value lies in the range, as a number. A NaN lies in none.
    pub open spec fn holds(self, v: u32) -> bool {
        (less(self.low, v) || same(self.low, v)) && (less(v, self.high) || same(v, self.high))
    }

    /// Whether a value lies in the range.
    pub fn contains(&self, v: u32) -> (r: bool)
        ensures
            r == self.holds(v),
    {
        le(self.low, v) && le(v, self.high)
    }
}

/// The element values that carry meaning for the propagation: the two
/// bands of cortical labels, one for each hemisphere, and the codes of the
/// voxels that may be filled.
#[derive(Debug, PartialEq, Eq)]
pub struct Scheme {
    pub left: Band,
    pub right: Band,
    pub fillable: Vec<u32>,
}

impl Scheme {
    /// Whether a value is a cortical label.
    pub open spec fn cortical(self, v: u32) -> bool {
        self.left.holds(v) || self.right.holds(v)
    }

    /// Whether a value is, as a number, one of the codes that may be filled.
    pub open spec fn fills(self, v: u32) -> bool {
        exists|i: int| 0 <= i < self.fillable@.len() && same(#[trigger] self.fillable@[i], v)
    }

    /// The scheme of the standard parcellation: cortical labels 1001 to
    /// 1035 and 2001 to 2035; white matter 2 and 41 and the codes 251 to
    /// 255 may be filled.
    pub fn standard() -> (r: Scheme)
        ensures
            r.left == (Band { low: 0x447A_4000, high: 0x4481_6000 }),
            r.right == (Band { low: 0x44FA_2000, high: 0x44FE_6000 }),
            r.fillable@ == seq![
                0x4000_0000u32,
                0x4224_0000u32,
                0x437B_0000u32,
                0x437C_0000u32,
                0x437D_0000u32,
                0x437E_0000u32,
                0x437F_0000u32,
            ],
    {
        let mut fillable: Vec<u32> = Vec::new();
        fillable.push(0x4000_0000);
        fillable.push(0x4224_0000);
        fillable.push(0x437B_0000);
        fillable.push(0x437C_0000);
        fillable.push(0x437D_0000);
        fillable.push(0x437E_0000);
        fillable.push(0x437F_0000);
        assert(fillable@ =~= seq![
            0x4000_0000u32,
            0x4224_0000u32,
            0x437B_0000u32,
            0x437C_0000u32,
            0x437D_0000u32,
            0x437E_0000u32,
            0x437F_0000u32,
        ]);
        Scheme {
            left: Band { low: 0x447A_4000, high: 0x4481_6000 },
            right: Band { low: 0x44FA_2000, high: 0x44FE_6000 },
            fillable,
        }
    }

    /// Whether a value is a cortical label.
    pub fn is_cortical(&self, v: u32) -> (r: bool)
        ensures
            r == self.cortical(v),
    {
        self.left.contains(v) || self.right.contains(v)
    }

    /// Whether a value is one of the codes that may be filled.
    pub fn is_fillable(&self, v: u32) -> (r: bool)
        ensures
            r == self.fills(v),
    {
        let mut i: usize = 0;
        while i < self.fillable.len()
            invariant
                i <= self.fillable@.len(),
                forall|j: int| 0 <= j < i ==> !same(#[trigger] self.fillable@[j], v),
            decreases self.fillable@.len() - i,
        {
            if eq(self.fillable[i], v) {
                return true;
            }
            i += 1;
        }
        false
    }
}

/// Whether a voxel lies inside the first volume of a grid.
pub open spec fn inside(g: GridView, p: Position) -> bool {
    g.contains(0, p.z as int, p.y as int, p.x as int)
}

/// The element of the first volume of a grid at a voxel.
pub open spec fn value_at(g: GridView, p: Position) -> u32 {
    g.at(0, p.z as int, p.y as int, p.x as int)
}

/// Whether every point of every streamline lies inside the grid.
pub open spec fn all_inside(g: GridView, tracks: Seq<Seq<Position>>) -> bool {
    forall|i: int, k: int|
        0 <= i < tracks.len() && 0 <= k < tracks[i].len() ==> inside(g, #[trigger] tracks[i][k])
}

/// The label of a streamline: the element, as an integer, at the last of
/// its points whose element is a cortical label; none where it has no such
/// point.
pub open spec fn fiber_label(scheme: Scheme, g: GridView, path: Seq<Position>) -> Option<i32>
    decreases path.len(),
{
    if path.len() == 0 {
        None
    } else if scheme.cortical(value_at(g, path.last())) {
        Some(truncated(value_at(g, path.last())) as i32)
    } else {
        fiber_label(scheme, g, path.drop_last())
    }
}

/// How often a streamline visits a voxel.
pub open spec fn occurrences(path: Seq<Position>, p: Position) -> nat
    decreases path.len(),
{
    if path.len() == 0 {
        0
    } else {
        occurrences(path.drop_last(), p) + if path.last() == p {
            1nat
        } else {
            0nat
        }
    }
}

/// A label, `n` times.
pub open spec fn repeated(label: i32, n: nat) -> Seq<i32> {
    Seq::new(n, |i: int| label)
}

/// What one streamline leaves at a voxel: its label, once for each visit.
pub open spec fn left_by(scheme: Scheme, g: GridView, path: Seq<Position>,
    p: Position) -> Seq<i32> {
    match fiber_label(scheme, g, path) {
        Some(label) => repeated(label, occurrences(path, p)),
        None => Seq::empty(),
    }
}

/// The observations at a voxel: what the streamlines leave there, in the
/// order of the streamlines.
pub open spec fn observed(
    scheme: Scheme,
    g: GridView,
    tracks: Seq<Seq<Position>>,
    p: Position,
) -> Seq<i32>
    decreases tracks.len(),
{
    if tracks.len() == 0 {
        Seq::empty()
    } else {
        observed(scheme, g, tracks.drop_last(), p) + left_by(scheme, g, tracks.last(), p)
    }
}

/// The observations of all voxels that have any.
pub open spec fn votes(scheme: Scheme, g: GridView, tracks: Seq<Seq<Position>>) -> Map<
    Position,
    Seq<i32>,
> {
    Map::new(
        |p: Position| observed(scheme, g, tracks, p).len() > 0,
        |p: Position| observed(scheme, g, tracks, p),
    )
}

/// The observations that a map holds for a voxel; none where it holds no
/// entry.
pub open spec fn list_of(m: Map<Position, Seq<i32>>, p: Position) -> Seq<i32> {
    if m.contains_key(p) {
        m[p]
    } else {
        Seq::empty()
    }
}

fn element(grid: &NIfTI1Data, p: Position) -> (v: u32)
    requires
        inside(grid@, p),
    ensures
        v == value_at(grid@, p),
{
    grid.get(0, p.z as usize, p.y as usize, p.x as usize)
}

/// Whether every point of every streamline lies inside the grid.
pub fn fibers_inside(grid: &NIfTI1Data, fibers: &Vec<Fiber>) -> (r: bool)
    ensures
        r == all_inside(grid@, paths(fibers@)),
{
    let mut i: usize = 0;
    while i < fibers.len()
        invariant
            i <= fibers@.len(),
            forall|a: int, k: int|
                0 <= a < i && 0 <= k < fibers@[a]@.len() ==> inside(
                    grid@,
                    #[trigger] paths(fibers@)[a][k],
                ),
        decreases fibers@.len() - i,
    {
        let fiber: &Fiber = &fibers[i];
        let mut k: usize = 0;
        while k < fiber.len()
            invariant
                k <= fiber@.len(),
                i < fibers@.len(),
                fiber@ == fibers@[i as int]@,
                forall|b: int| 0 <= b < k ==> inside(grid@, #[trigger] fiber@[b]),
            decreases fiber@.len() - k,
        {
            let p: Position = fiber[k];
            if p.x < 0 || p.y < 0 || p.z < 0 || !grid.contains(
                0,
                p.z as usize,
                p.y as usize,
                p.x as usize,
            ) {
                assert(!inside(grid@, paths(fibers@)[i as int][k as int]));
                return false;
            }
            k += 1;
        }
        assert(paths(fibers@)[i as int] == fiber@);
        i += 1;
    }
    true
}

/// The label of a streamline: phase one for one streamline.
pub fn assign_label(scheme: &Scheme, grid: &NIfTI1Data, fiber: &Fiber) -> (r: Option<i32>)
    requires
        forall|k: int| 0 <= k < fiber@.len() ==> inside(grid@, #[trigger] fiber@[k]),
    ensures
        r == fiber_label(*scheme, grid@, fiber@),
{
    let mut label: Option<i32> = None;
    let mut i: usize = 0;
    while i < fiber.len()
        invariant
            i <= fiber@.len(),
            forall|k: int| 0 <= k < fiber@.len() ==> inside(grid@, #[trigger] fiber@[k]),
            label == fiber_label(*scheme, grid@, fiber@.subrange(0, i as int)),
        decreases fiber@.len() - i,
    {
        let v: u32 = element(grid, fiber[i]);
        proof {
            let hi = fiber@.subrange(0, i + 1);
            assert(hi.drop_last() =~= fiber@.subrange(0, i as int));
            assert(hi.last() == fiber@[i as int]);
        }
        if scheme.is_cortical(v) {
            label = Some(to_i32(v));
        }
        i += 1;
    }
    assert(fiber@.subrange(0, fiber@.len() as int) =~= fiber@);
    label
}

/// The observations of a run: for every voxel that any labelled streamline
/// visits, the labels left there, in the order in which they were left.
pub struct Observations {
    nx: u16,
    ny: u16,
    nz: u16,
    lists: HashMap<u64, Vec<i32>>,
}

impl View for Observations {
    type V = Map<Position, Seq<i32>>;

    closed spec fn view(&self) -> Map<Position, Seq<i32>> {
        Map::new(
            |p: Position| self.within(p) && self.lists@.contains_key(self.key(p) as u64),
            |p: Position| self.lists@[self.key(p) as u64]@,
        )
    }
}

impl Observations {
    spec fn within(self, p: Position) -> bool {
        0 <= p.x < self.nx && 0 <= p.y < self.ny && 0 <= p.z < self.nz
    }

    spec fn key(self, p: Position) -> int {
        (p.z * self.ny + p.y) * self.nx + p.x
    }

    proof fn lemma_key(self, p: Position, q: Position)
        requires
            self.within(p),
            self.within(q),
        ensures
            0 <= self.key(p) <= 65535 * 65535 * 65535 - 1,
            self.key(p) == self.key(q) ==> p == q,
    {
        let a = p.z * self.ny + p.y;
        assert(0 <= a <= 65535 * 65535 - 1) by (nonlinear_arith)
            requires
                a == p.z * self.ny + p.y,
                0 <= p.z <= self.nz - 1,
                0 <= p.y <= self.ny - 1,
                self.ny <= 65535,
                self.nz <= 65535,
        ;
        assert(0 <= a * self.nx + p.x <= 65535 * 65535 * 65535 - 1) by (nonlinear_arith)
            requires
                0 <= a <= 65535 * 65535 - 1,
                0 <= p.x <= self.nx - 1,
                self.nx <= 65535,
        ;
        if self.key(p) == self.key(q) {
            lemma_digit(a, p.x as int, q.z * self.ny + q.y, q.x as int, self.nx as int);
            lemma_digit(p.z as int, p.y as int, q.z as int, q.y as int, self.ny as int);
        }
    }

    fn slot(&self, p: Position) -> (k: u64)
        requires
            self.within(p),
        ensures
            k == self.key(p),
    {
        proof {
            self.lemma_key(p, p);
        }
        assert(0 <= p.z * self.ny + p.y <= 65535 * 65535 - 1) by (nonlinear_arith)
            requires
                0 <= p.z <= self.nz - 1,
                0 <= p.y <= self.ny - 1,
                self.ny <= 65535,
                self.nz <= 65535,
        ;
        let a: u64 = (p.z as u64) * (self.ny as u64) + (p.y as u64);
        assert(0 <= a * self.nx + p.x <= 65535 * 65535 * 65535 - 1) by (nonlinear_arith)
            requires
                0 <= a <= 65535 * 65535 - 1,
                0 <= p.x <= self.nx - 1,
                self.nx <= 65535,
        ;
        a * (self.nx as u64) + (p.x as u64)
    }

    fn empty(nx: u16, ny: u16, nz: u16) -> (r: Observations)
        ensures
            r@ == Map::<Position, Seq<i32>>::empty(),
            r.nx == nx && r.ny == ny && r.nz == nz,
    {
        let r = Observations { nx, ny, nz, lists: HashMap::new() };
        assert(r@ =~= Map::<Position, Seq<i32>>::empty());
        r
    }

    fn record(&mut self, p: Position, label: i32)
        requires
            old(self).within(p),
        ensures
            final(self)@ == old(self)@.insert(p, list_of(old(self)@, p).push(label)),
            final(self).nx == old(self).nx,
            final(self).ny == old(self).ny,
            final(self).nz == old(self).nz,
    {
        let k: u64 = self.slot(p);
        let ghost before = *self;
        let mut list: Vec<i32> = match self.lists.remove(&k) {
            Some(list) => list,
            None => Vec::new(),
        };
        assert(list@ == list_of(before@, p));
        list.push(label);
        self.lists.insert(k, list);
        proof {
            let after = *self;
            let want = before@.insert(p, list_of(before@, p).push(label));
            assert forall|q: Position| #[trigger]
                after@.dom().contains(q) == want.dom().contains(q) && (after@.dom().contains(q)
                    ==> after@[q] == want[q]) by {
                if before.within(q) {
                    before.lemma_key(p, q);
                    before.lemma_key(q, p);
                }
            }
            assert(after@.dom() =~= want.dom());
            assert(after@ =~= want);
        }
    }

    /// The labels observed at a voxel, in the order in which they were
    /// left; `None` for a voxel without observations.
    pub fn list(&self, p: Position) -> (r: Option<&Vec<i32>>)
        ensures
            match r {
                Some(list) => self@.contains_key(p) && list@ == self@[p],
                None => !self@.contains_key(p),
            },
    {
        if p.x < 0 || p.y < 0 || p.z < 0 || p.x >= self.nx as i32 || p.y >= self.ny as i32 || p.z
            >= self.nz as i32 {
            return None;
        }
        let k: u64 = self.slot(p);
        self.lists.get(&k)
    }
}

/// Phase one: every streamline's label is left at each of its points.
///
/// Every point must lie inside the grid.
pub fn observe(scheme: &Scheme, grid: &NIfTI1Data, fibers: &Vec<Fiber>) -> (obs: Observations)
    requires
        all_inside(grid@, paths(fibers@)),
    ensures
        obs@ == votes(*scheme, grid@, paths(fibers@)),
{
    let (nx, ny, nz, nt) = grid.extents();
    let ghost g = grid@;
    let ghost tracks = paths(fibers@);
    let mut obs = Observations::empty(nx, ny, nz);
    let mut i: usize = 0;
    while i < fibers.len()
        invariant
            i <= fibers@.len(),
            g == grid@,
            tracks == paths(fibers@),
            all_inside(g, tracks),
            obs.nx == g.nx && obs.ny == g.ny && obs.nz == g.nz,
            forall|q: Position| #[trigger]
                list_of(obs@, q) == observed(*scheme, g, tracks.subrange(0, i as int), q),
            forall|q: Position| obs@.contains_key(q) ==> (#[trigger] obs@[q]).len() > 0,
        decreases fibers@.len() - i,
    {
        let fiber: &Fiber = &fibers[i];
        let ghost path = tracks[i as int];
        let ghost lo = tracks.subrange(0, i as int);
        let ghost hi = tracks.subrange(0, i + 1);
        proof {
            assert(path == fiber@);
            assert(hi.drop_last() =~= lo);
            assert(hi.last() == path);
            assert forall|k: int| 0 <= k < fiber@.len() implies inside(g, #[trigger] fiber@[k]) by {
                assert(inside(g, tracks[i as int][k]));
            }
        }
        match assign_label(scheme, grid, fiber) {
            Some(label) => {
                let mut j: usize = 0;
                assert(path.subrange(0, 0).len() == 0);
                assert forall|q: Position| #[trigger]
                    list_of(obs@, q) == observed(*scheme, g, lo, q) + repeated(
                        label,
                        occurrences(path.subrange(0, 0), q),
                    ) by {
                    assert(observed(*scheme, g, lo, q) + repeated(label, 0) =~= observed(
                        *scheme,
                        g,
                        lo,
                        q,
                    ));
                }
                while j < fiber.len()
                    invariant
                        j <= fiber@.len(),
                        path == fiber@,
                        forall|k: int| 0 <= k < fiber@.len() ==> inside(g, #[trigger] fiber@[k]),
                        obs.nx == g.nx && obs.ny == g.ny && obs.nz == g.nz,
                        forall|q: Position| #[trigger]
                            list_of(obs@, q) == observed(*scheme, g, lo, q) + repeated(
                                label,
                                occurrences(path.subrange(0, j as int), q),
                            ),
                        forall|q: Position| obs@.contains_key(q) ==> (#[trigger] obs@[q]).len() > 0,
                    decreases fiber@.len() - j,
                {
                    let p: Position = fiber[j];
                    let ghost before = obs@;
                    assert(inside(g, fiber@[j as int]));
                    obs.record(p, label);
                    proof {
                        let short = path.subrange(0, j as int);
                        let long = path.subrange(0, j + 1);
                        assert(long.drop_last() =~= short);
                        assert(long.last() == p);
                        assert forall|q: Position| #[trigger]
                            list_of(obs@, q) == observed(*scheme, g, lo, q) + repeated(
                                label,
                                occurrences(long, q),
                            ) by {
                            let base = observed(*scheme, g, lo, q);
                            assert(list_of(before, q) == base + repeated(
                                label,
                                occurrences(short, q),
                            ));
                            if q == p {
                                assert((base + repeated(label, occurrences(short, q))).push(label)
                                    =~= base + repeated(label, occurrences(long, q)));
                            }
                        }
                    }
                    j += 1;
                }
                proof {
                    assert(path.subrange(0, fiber@.len() as int) =~= path);
                    assert forall|q: Position| #[trigger]
                        list_of(obs@, q) == observed(*scheme, g, hi, q) by {
                        assert(left_by(*scheme, g, path, q) == repeated(
                            label,
                            occurrences(path, q),
                        ));
                    }
                }
            },
            None => {
                proof {
                    assert forall|q: Position| #[trigger]
                        list_of(obs@, q) == observed(*scheme, g, hi, q) by {
                        assert(left_by(*scheme, g, path, q) == Seq::<i32>::empty());
                        assert(observed(*scheme, g, lo, q) + Seq::<i32>::empty() =~= observed(
                            *scheme,
                            g,
                            lo,
                            q,
                        ));
                    }
                }
            },
        }
        i += 1;
    }
    proof {
        assert(tracks.subrange(0, fibers@.len() as int) =~= tracks);
        let want = votes(*scheme, g, tracks);
        assert forall|q: Position| #[trigger]
            obs@.dom().contains(q) == want.dom().contains(q) && (obs@.dom().contains(q) ==> obs@[q]
                == want[q]) by {
            assert(list_of(obs@, q) == observed(*scheme, g, tracks, q));
        }
        assert(obs@.dom() =~= want.dom());
        assert(obs@ =~= want);
    }
    obs
}

/// How often a label occurs among observations.
pub open spec fn count(list: Seq<i32>, label: i32) -> nat
    decreases list.len(),
{
    if list.len() == 0 {
        0
    } else {
        count(list.drop_last(), label) + if list.last() == label {
            1nat
        } else {
            0nat
        }
    }
}

/// The local probability of a label at a voxel: its share of the voxel's
/// observations.
pub open spec fn local(list: Seq<i32>, label: i32) -> u32 {
    quotient(from_int(count(list, label) as int), from_int(list.len() as int))
}

/// The steps to the neighbours of a voxel that take part in its vote, in
/// the order in which they are visited: one step back or none along each
/// axis, z slowest and x fastest, without the voxel itself.
pub open spec fn steps() -> Seq<Position> {
    seq![
        Position { x: -1i32, y: -1i32, z: -1i32 },
        Position { x: 0i32, y: -1i32, z: -1i32 },
        Position { x: -1i32, y: 0i32, z: -1i32 },
        Position { x: 0i32, y: 0i32, z: -1i32 },
        Position { x: -1i32, y: -1i32, z: 0i32 },
        Position { x: 0i32, y: -1i32, z: 0i32 },
        Position { x: -1i32, y: 0i32, z: 0i32 },
    ]
}

/// The weight of each step: one over its Euclidean length, which is the
/// root of 3, 2 or 1.
pub open spec fn weights() -> Seq<u32> {
    seq![
        0x3F13_CD3Au32,
        0x3F35_04F3u32,
        0x3F35_04F3u32,
        0x3F80_0000u32,
        0x3F35_04F3u32,
        0x3F80_0000u32,
        0x3F80_0000u32,
    ]
}

/// The voxel one step away.
pub open spec fn stepped(p: Position, step: Position) -> Position {
    Position { x: (p.x + step.x) as i32, y: (p.y + step.y) as i32, z: (p.z + step.z) as i32 }
}

/// The weighted sum of the local probabilities of a label at the first `n`
/// neighbours of a voxel, and the number of neighbours that add to it:
/// those with observations among which the label has a positive share.
pub open spec fn gathered(m: Map<Position, Seq<i32>>, p: Position, label: i32, n: nat) -> (
    u32,
    nat,
)
    decreases n,
{
    if n == 0 {
        (0u32, 0nat)
    } else {
        let before = gathered(m, p, label, (n - 1) as nat);
        let q = stepped(p, steps()[n - 1]);
        if m.contains_key(q) && less(0, local(m[q], label)) {
            (sum(before.0, product(weights()[n - 1], local(m[q], label))), before.1 + 1)
        } else {
            before
        }
    }
}

/// The neighbour probability of a label at a voxel: the weighted sum over
/// the neighbours that add to it, divided by their number; zero where there
/// is none.
pub open spec fn around(m: Map<Position, Seq<i32>>, p: Position, label: i32) -> u32 {
    let g = gathered(m, p, label, 7);
    if g.1 == 0 {
        0
    } else {
        quotient(g.0, from_int(g.1 as int))
    }
}

/// The score of a label at a voxel: local plus neighbour probability.
#[verifier::opaque]
pub open spec fn score(m: Map<Position, Seq<i32>>, p: Position, label: i32) -> u32 {
    sum(local(m[p], label), around(m, p, label))
}

/// The label in the lead, with its score, after the first `n` observations
/// of a voxel: an observation takes the lead when its label's score is
/// higher than the leader's. Before the first, label 0 leads with score 0.
pub open spec fn leader(m: Map<Position, Seq<i32>>, p: Position, n: nat) -> (i32, u32)
    decreases n,
{
    if n == 0 {
        (0i32, 0u32)
    } else {
        let before = leader(m, p, (n - 1) as nat);
        let label = m[p][n - 1];
        if less(before.1, score(m, p, label)) {
            (label, score(m, p, label))
        } else {
            before
        }
    }
}

/// The label that a voxel chooses: the one in the lead after all its
/// observations.
pub open spec fn winner(m: Map<Position, Seq<i32>>, p: Position) -> i32 {
    leader(m, p, m[p].len()).0
}

/// The label that a voxel is given: the one it chooses, where it has
/// observations, the label is positive, and the voxel's own element is one
/// of the codes that may be filled.
pub open spec fn given(scheme: Scheme, g: GridView, m: Map<Position, Seq<i32>>, p: Position)
    -> Option<i32> {
    if m.contains_key(p) && winner(m, p) > 0 && inside(g, p) && scheme.fills(value_at(g, p)) {
        Some(winner(m, p))
    } else {
        None
    }
}

/// The result of a run: the labels given to voxels.
pub open spec fn propagated(scheme: Scheme, g: GridView, tracks: Seq<Seq<Position>>) -> Map<
    Position,
    i32,
> {
    Map::new(
        |p: Position| given(scheme, g, votes(scheme, g, tracks), p) is Some,
        |p: Position| given(scheme, g, votes(scheme, g, tracks), p)->0,
    )
}

fn count_of(list: &Vec<i32>, label: i32) -> (c: usize)
    ensures
        c == count(list@, label),
        c <= list@.len(),
{
    let mut c: usize = 0;
    let mut i: usize = 0;
    while i < list.len()
        invariant
            i <= list@.len(),
            c <= i,
            c == count(list@.subrange(0, i as int), label),
        decreases list@.len() - i,
    {
        proof {
            let hi = list@.subrange(0, i + 1);
            assert(hi.drop_last() =~= list@.subrange(0, i as int));
            assert(hi.last() == list@[i as int]);
        }
        if list[i] == label {
            c += 1;
        }
        i += 1;
    }
    assert(list@.subrange(0, list@.len() as int) =~= list@);
    c
}

/// The local probability of a label among observations.
pub fn label_prob(labels: &Vec<i32>, label: i32) -> (r: u32)
    ensures
        r == local(labels@, label),
        r < 0x8000_0000,
{
    let c: usize = count_of(labels, label);
    divide(from_u64(c as u64), from_u64(labels.len() as u64))
}

fn step(n: usize) -> (r: (i32, i32, i32, u32))
    requires
        n < 7,
    ensures
        steps()[n as int] == (Position { x: r.0, y: r.1, z: r.2 }),
        weights()[n as int] == r.3,
        r.3 < 0x8000_0000,
        -1 <= r.0 <= 0 && -1 <= r.1 <= 0 && -1 <= r.2 <= 0,
{
    let dx: i32 = if n % 2 == 0 {
        -1
    } else {
        0
    };
    let dy: i32 = if (n / 2) % 2 == 0 {
        -1
    } else {
        0
    };
    let dz: i32 = if n < 4 {
        -1
    } else {
        0
    };
    let away: i32 = dx + dy + dz;
    let w: u32 = if away == -3 {
        0x3F13_CD3A
    } else if away == -2 {
        0x3F35_04F3
    } else {
        0x3F80_0000
    };
    (dx, dy, dz, w)
}

/// The score of a label at a voxel with observations.
pub fn score_of(obs: &Observations, p: Position, label: i32) -> (r: u32)
    requires
        obs@.contains_key(p),
    ensures
        r == score(obs@, p, label),
{
    let own: u32 = match obs.list(p) {
        Some(list) => label_prob(list, label),
        None => 0,
    };
    let mut acc: u32 = 0;
    let mut k: i32 = 0;
    let mut n: usize = 0;
    while n < 7
        invariant
            n <= 7,
            0 <= k <= n,
            acc < 0x8000_0000,
            obs.within(p),
            (acc, k as nat) == gathered(obs@, p, label, n as nat),
        decreases 7 - n,
    {
        let (dx, dy, dz, w) = step(n);
        let q = Position { x: p.x + dx, y: p.y + dy, z: p.z + dz };
        assert(q == stepped(p, steps()[n as int]));
        match obs.list(q) {
            Some(list) => {
                let np: u32 = label_prob(list, label);
                if lt(0, np) {
                    acc = plus(acc, multiply(w, np));
                    k += 1;
                }
            },
            None => {},
        }
        n += 1;
    }
    let near: u32 = if k == 0 {
        0
    } else {
        divide(acc, from_i32(k))
    };
    proof {
        reveal(score);
    }
    plus(own, near)
}

/// Phase two for one voxel with observations: the label it chooses.
pub fn resolve(obs: &Observations, p: Position) -> (r: i32)
    requires
        obs@.contains_key(p),
    ensures
        r == winner(obs@, p),
{
    let mut best: i32 = 0;
    let mut high: u32 = 0;
    match obs.list(p) {
        Some(list) => {
            let mut i: usize = 0;
            while i < list.len()
                invariant
                    i <= list@.len(),
                    obs@.contains_key(p),
                    list@ == obs@[p],
                    (best, high) == leader(obs@, p, i as nat),
                decreases list@.len() - i,
            {
                let s: u32 = score_of(obs, p, list[i]);
                if lt(high, s) {
                    high = s;
                    best = list[i];
                }
                i += 1;
            }
        },
        None => {},
    }
    best
}

/// The labels given to voxels, for given observations.
pub open spec fn selected(scheme: Scheme, g: GridView, m: Map<Position, Seq<i32>>) -> Map<
    Position,
    i32,
> {
    Map::new(
        |p: Position| given(scheme, g, m, p) is Some,
        |p: Position| given(scheme, g, m, p)->0,
    )
}

/// A list holds a map: each of its entries is an entry of the map, every
/// key of the map has an entry, and no key has two.
pub open spec fn lists_exactly(entries: Seq<(Position, i32)>, m: Map<Position, i32>) -> bool {
    &&& forall|i: int|
        0 <= i < entries.len() ==> m.contains_key((#[trigger] entries[i]).0) && m[entries[i].0]
            == entries[i].1
    &&& forall|p: Position|
        m.contains_key(p) ==> exists|i: int| 0 <= i < entries.len() && (#[trigger] entries[i]).0
            == p
    &&& forall|i: int, j: int|
        0 <= i < j < entries.len() ==> (#[trigger] entries[i]).0 != (#[trigger] entries[j]).0
}

/// Whether a voxel comes before the place `(z, y, x)` when a grid is
/// walked with z slowest and x fastest.
pub open spec fn walked(p: Position, z: int, y: int, x: int) -> bool {
    p.z < z || (p.z == z && (p.y < y || (p.y == y && p.x < x)))
}

/// Whether the voxels of a list come in the order in which a grid is
/// walked.
pub open spec fn in_walk_order(entries: Seq<(Position, i32)>) -> bool {
    forall|i: int, j: int|
        0 <= i < j < entries.len() ==> walked(
            (#[trigger] entries[i]).0,
            (#[trigger] entries[j]).0.z as int,
            entries[j].0.y as int,
            entries[j].0.x as int,
        )
}

/// Phases two and three: every voxel of the grid's first volume that has
/// observations chooses its label, and the choices of the voxels that may
/// be filled are listed, in the order in which the grid is stored.
pub fn select(scheme: &Scheme, grid: &NIfTI1Data, obs: &Observations) -> (out: Vec<
    (Position, i32),
>)
    ensures
        lists_exactly(out@, selected(*scheme, grid@, obs@)),
        in_walk_order(out@),
{
    let (nx, ny, nz, nt) = grid.extents();
    let ghost g = grid@;
    let ghost want = selected(*scheme, g, obs@);
    let mut out: Vec<(Position, i32)> = Vec::new();
    if nt == 0 {
        return out;
    }
    let mut z: u16 = 0;
    while z < nz
        invariant
            z <= nz,
            g == grid@,
            g.nx == nx && g.ny == ny && g.nz == nz && g.nt == nt && nt > 0,
            want == selected(*scheme, g, obs@),
            in_walk_order(out@),
            forall|i: int|
                0 <= i < out@.len() ==> want.contains_key((#[trigger] out@[i]).0) && want[out@[i].0]
                    == out@[i].1 && walked(out@[i].0, z as int, 0, 0),
            forall|p: Position|
                want.contains_key(p) && walked(p, z as int, 0, 0) ==> exists|i: int|
                    0 <= i < out@.len() && (#[trigger] out@[i]).0 == p,
            forall|i: int, j: int|
                0 <= i < j < out@.len() ==> (#[trigger] out@[i]).0 != (#[trigger] out@[j]).0,
        decreases nz - z,
    {
        let mut y: u16 = 0;
        while y < ny
            invariant
                y <= ny,
                z < nz,
                g == grid@,
                g.nx == nx && g.ny == ny && g.nz == nz && g.nt == nt && nt > 0,
                want == selected(*scheme, g, obs@),
                in_walk_order(out@),
                forall|i: int|
                    0 <= i < out@.len() ==> want.contains_key((#[trigger] out@[i]).0)
                        && want[out@[i].0] == out@[i].1 && walked(out@[i].0, z as int, y as int, 0),
                forall|p: Position|
                    want.contains_key(p) && walked(p, z as int, y as int, 0) ==> exists|i: int|
                        0 <= i < out@.len() && (#[trigger] out@[i]).0 == p,
                forall|i: int, j: int|
                    0 <= i < j < out@.len() ==> (#[trigger] out@[i]).0 != (#[trigger] out@[j]).0,
            decreases ny - y,
        {
            let mut x: u16 = 0;
            while x < nx
                invariant
                    x <= nx,
                    y < ny,
                    z < nz,
                    g == grid@,
                    g.nx == nx && g.ny == ny && g.nz == nz && g.nt == nt && nt > 0,
                    want == selected(*scheme, g, obs@),
                    in_walk_order(out@),
                    forall|i: int|
                        0 <= i < out@.len() ==> want.contains_key((#[trigger] out@[i]).0)
                            && want[out@[i].0] == out@[i].1 && walked(
                            out@[i].0,
                            z as int,
                            y as int,
                            x as int,
                        ),
                    forall|p: Position|
                        want.contains_key(p) && walked(p, z as int, y as int, x as int)
                            ==> exists|i: int|
                            0 <= i < out@.len() && (#[trigger] out@[i]).0 == p,
                    forall|i: int, j: int|
                        0 <= i < j < out@.len() ==> (#[trigger] out@[i]).0 != (
                        #[trigger] out@[j]).0,
                decreases nx - x,
            {
                let p = Position { x: x as i32, y: y as i32, z: z as i32 };
                let ghost before = out@;
                let mut label: Option<i32> = None;
                if obs.list(p).is_some() {
                    let w: i32 = resolve(obs, p);
                    if w > 0 && scheme.is_fillable(element(grid, p)) {
                        label = Some(w);
                    }
                }
                assert(label == given(*scheme, g, obs@, p));
                match label {
                    Some(w) => {
                        out.push((p, w));
                        proof {
                            assert(out@[before.len() as int] == (p, w));
                            assert forall|q: Position|
                                want.contains_key(q) && walked(q, z as int, y as int, x + 1)
                                    implies exists|i: int|
                                0 <= i < out@.len() && (#[trigger] out@[i]).0 == q by {
                                if q == p {
                                    assert(out@[before.len() as int].0 == q);
                                } else {
                                    assert(walked(q, z as int, y as int, x as int));
                                    let i = choose|i: int|
                                        0 <= i < before.len() && (#[trigger] before[i]).0 == q;
                                    assert(out@[i].0 == q);
                                }
                            }
                            assert forall|i: int, j: int| 0 <= i < j < out@.len() implies (
                            #[trigger] out@[i]).0 != (#[trigger] out@[j]).0 by {
                                if j == before.len() {
                                    assert(out@[i] == before[i]);
                                    assert(walked(before[i].0, z as int, y as int, x as int));
                                } else {
                                    assert(out@[i] == before[i] && out@[j] == before[j]);
                                }
                            }
                            assert forall|i: int, j: int| 0 <= i < j < out@.len() implies walked(
                                (#[trigger] out@[i]).0,
                                (#[trigger] out@[j]).0.z as int,
                                out@[j].0.y as int,
                                out@[j].0.x as int,
                            ) by {
                                assert(out@[i] == before[i]);
                                if j < before.len() {
                                    assert(out@[j] == before[j]);
                                } else {
                                    assert(walked(before[i].0, z as int, y as int, x as int));
                                }
                            }
                            assert forall|i: int| 0 <= i < out@.len() implies want.contains_key(
                                (#[trigger] out@[i]).0,
                            ) && want[out@[i].0] == out@[i].1 && walked(
                                out@[i].0,
                                z as int,
                                y as int,
                                x + 1,
                            ) by {
                                if i < before.len() {
                                    assert(out@[i] == before[i]);
                                }
                            }
                        }
                    },
                    None => {
                        proof {
                            assert forall|q: Position|
                                want.contains_key(q) && walked(q, z as int, y as int, x + 1)
                                    implies exists|i: int|
                                0 <= i < out@.len() && (#[trigger] out@[i]).0 == q by {
                                assert(q != p);
                                assert(walked(q, z as int, y as int, x as int));
                            }
                        }
                    },
                }
                x += 1;
            }
            proof {
                assert forall|q: Position| walked(q, z as int, y + 1, 0) && want.contains_key(
                    q,
                ) implies walked(q, z as int, y as int, nx as int) by {
                    assert(inside(g, q));
                }
            }
            y += 1;
        }
        proof {
            assert forall|q: Position| walked(q, z + 1, 0, 0) && want.contains_key(
                q,
            ) implies walked(q, z as int, ny as int, 0) by {
                assert(inside(g, q));
            }
        }
        z += 1;
    }
    proof {
        assert forall|q: Position| want.contains_key(q) implies walked(q, nz as int, 0, 0) by {
            assert(inside(g, q));
        }
    }
    out
}

/// The whole propagation: the labels given to the voxels of a grid by a
/// set of streamlines.
///
/// Every point of every streamline must lie inside the grid.
pub fn run(scheme: &Scheme, grid: &NIfTI1Data, fibers: &Vec<Fiber>) -> (out: Vec<(Position, i32)>)
    requires
        all_inside(grid@, paths(fibers@)),
    ensures
        lists_exactly(out@, propagated(*scheme, grid@, paths(fibers@))),
        in_walk_order(out@),
        forall|i: int|
            0 <= i < out@.len() ==> scheme.fills(value_at(grid@, (#[trigger] out@[i]).0)),
        forall|i: int| 0 <= i < out@.len() ==> inside(grid@, (#[trigger] out@[i]).0),
{
    let obs: Observations = observe(scheme, grid, fibers);
    let out = select(scheme, grid, &obs);
    proof {
        assert(propagated(*scheme, grid@, paths(fibers@)) =~= selected(*scheme, grid@, obs@));
    }
    out
}

/// A grid after labels were written into its first volume, entry by
/// entry: each label as the single-precision number nearest to it.
pub open spec fn painted(g: GridView, entries: Seq<(Position, i32)>) -> GridView
    decreases entries.len(),
{
    if entries.len() == 0 {
        g
    } else {
        painted(g, entries.drop_last()).with(
            0,
            entries.last().0.z as int,
            entries.last().0.y as int,
            entries.last().0.x as int,
            from_int(entries.last().1 as int),
        )
    }
}

/// Writing labels keeps the extents of a grid.
pub proof fn lemma_painted_extents(g: GridView, entries: Seq<(Position, i32)>)
    requires
        g.wf(),
        forall|i: int| 0 <= i < entries.len() ==> inside(g, (#[trigger] entries[i]).0),
    ensures
        painted(g, entries).nx == g.nx,
        painted(g, entries).ny == g.ny,
        painted(g, entries).nz == g.nz,
        painted(g, entries).nt == g.nt,
        painted(g, entries).wf(),
    decreases entries.len(),
{
    if entries.len() > 0 {
        let rest = entries.drop_last();
        assert forall|i: int| 0 <= i < rest.len() implies inside(g, (#[trigger] rest[i]).0) by {
            assert(rest[i] == entries[i]);
        }
        lemma_painted_extents(g, rest);
        let p = entries.last().0;
        assert(inside(g, entries[entries.len() - 1].0));
        lemma_offset_in_range(
            painted(g, rest),
            0,
            p.z as int,
            p.y as int,
            p.x as int,
        );
    }
}

/// Writes labels into the first volume of a grid.
///
/// Every voxel of the list must lie inside the grid.
pub fn paint(data: &mut NIfTI1Data, labels: &Vec<(Position, i32)>)
    requires
        forall|i: int| 0 <= i < labels@.len() ==> inside(old(data)@, (#[trigger] labels@[i]).0),
    ensures
        final(data)@ == painted(old(data)@, labels@),
{
    let ghost g = data@;
    let mut i: usize = 0;
    let _ = data.extents();
    assert(labels@.subrange(0, 0).len() == 0);
    while i < labels.len()
        invariant
            i <= labels@.len(),
            g.wf(),
            forall|k: int| 0 <= k < labels@.len() ==> inside(g, (#[trigger] labels@[k]).0),
            data@ == painted(g, labels@.subrange(0, i as int)),
        decreases labels@.len() - i,
    {
        let (p, label) = labels[i];
        proof {
            let lo = labels@.subrange(0, i as int);
            let hi = labels@.subrange(0, i + 1);
            assert(hi.drop_last() =~= lo);
            assert(hi.last() == labels@[i as int]);
            assert forall|k: int| 0 <= k < lo.len() implies inside(g, (#[trigger] lo[k]).0) by {
                assert(lo[k] == labels@[k]);
            }
            lemma_painted_extents(g, lo);
            assert(inside(g, labels@[i as int].0));
        }
        data.set(0, p.z as usize, p.y as usize, p.x as usize, from_i32(label));
        i += 1;
    }
    assert(labels@.subrange(0, labels@.len() as int) =~= labels@);
}

/// A streamline that visits no cortical voxel has no label and leaves no
/// observation anywhere: with it or without it, the observations are the
/// same.
pub proof fn lemma_unlabelled_leaves_nothing(
    scheme: Scheme,
    g: GridView,
    tracks: Seq<Seq<Position>>,
    path: Seq<Position>,
)
    requires
        forall|k: int| 0 <= k < path.len() ==> !scheme.cortical(value_at(g, #[trigger] path[k])),
    ensures
        fiber_label(scheme, g, path) is None,
        forall|p: Position| left_by(scheme, g, path, p) == Seq::<i32>::empty(),
        votes(scheme, g, tracks.push(path)) == votes(scheme, g, tracks),
    decreases path.len(),
{
    if path.len() > 0 {
        let rest = path.drop_last();
        assert forall|k: int| 0 <= k < rest.len() implies !scheme.cortical(
            value_at(g, #[trigger] rest[k]),
        ) by {
            assert(rest[k] == path[k]);
        }
        lemma_unlabelled_leaves_nothing(scheme, g, tracks, rest);
        assert(!scheme.cortical(value_at(g, path[path.len() - 1])));
    }
    let more = tracks.push(path);
    assert(more.drop_last() =~= tracks);
    assert(more.last() == path);
    assert forall|p: Position|
        observed(scheme, g, more, p) == observed(scheme, g, tracks, p) by {
        assert(observed(scheme, g, tracks, p) + Seq::<i32>::empty() =~= observed(
            scheme,
            g,
            tracks,
            p,
        ));
    }
    assert forall|p: Position| #[trigger]
        votes(scheme, g, more).dom().contains(p) == votes(scheme, g, tracks).dom().contains(p)
            && (votes(scheme, g, more).dom().contains(p) ==> votes(scheme, g, more)[p] == votes(
            scheme,
            g,
            tracks,
        )[p]) by {
        assert(observed(scheme, g, more, p) == observed(scheme, g, tracks, p));
    }
    assert(votes(scheme, g, more).dom() =~= votes(scheme, g, tracks).dom());
    assert(votes(scheme, g, more) =~= votes(scheme, g, tracks));
}

/// A label occurs at most as often as there are observations, and as often
/// as there are where no other label was observed.
pub proof fn lemma_count_bounds(list: Seq<i32>, label: i32)
    ensures
        count(list, label) <= list.len(),
        (forall|i: int| 0 <= i < list.len() ==> list[i] == label) ==> count(list, label)
            == list.len(),
    decreases list.len(),
{
    if list.len() > 0 {
        lemma_count_bounds(list.drop_last(), label);
        if forall|i: int| 0 <= i < list.len() ==> list[i] == label {
            assert forall|i: int| 0 <= i < list.drop_last().len() implies list.drop_last()[i]
                == label by {
                assert(list.drop_last()[i] == list[i]);
            }
            assert(list.last() == list[list.len() - 1]);
        }
    }
}

/// The local probability of a label is a number between zero and one: no
/// NaN, not negative, and at most one.
pub proof fn lemma_local_in_unit_range(list: Seq<i32>, label: i32)
    requires
        0 < list.len() < 0x1_0000_0000_0000_0000,
    ensures
        local(list, label) <= 0x3F80_0000,
{
    lemma_count_bounds(list, label);
    lemma_share_in_unit_range(count(list, label) as int, list.len() as int);
}

/// The number of observations that carry one of the labels of a list.
pub open spec fn counted(list: Seq<i32>, labels: Seq<i32>) -> nat
    decreases labels.len(),
{
    if labels.len() == 0 {
        0
    } else {
        counted(list, labels.drop_last()) + count(list, labels.last())
    }
}

/// The shares of the distinct labels make up the whole: where a list names
/// every observed label once, the counts of its labels add up to the number
/// of observations.
pub proof fn lemma_counts_add_up(list: Seq<i32>, labels: Seq<i32>)
    requires
        labels.no_duplicates(),
        forall|i: int| 0 <= i < list.len() ==> labels.contains(#[trigger] list[i]),
    ensures
        counted(list, labels) == list.len(),
    decreases list.len(),
{
    if list.len() == 0 {
        assert(list =~= Seq::<i32>::empty());
        lemma_counted_none(labels);
    } else {
        let rest = list.drop_last();
        assert forall|i: int| 0 <= i < rest.len() implies labels.contains(#[trigger] rest[i]) by {
            assert(rest[i] == list[i]);
        }
        lemma_counts_add_up(rest, labels);
        assert(list.last() == list[list.len() - 1]);
        assert(labels.contains(list.last()));
        lemma_counted_one_more(list, labels);
    }
}

proof fn lemma_counted_none(labels: Seq<i32>)
    ensures
        counted(Seq::<i32>::empty(), labels) == 0,
    decreases labels.len(),
{
    if labels.len() > 0 {
        lemma_counted_none(labels.drop_last());
    }
}

proof fn lemma_counted_one_more(list: Seq<i32>, labels: Seq<i32>)
    requires
        list.len() > 0,
        labels.no_duplicates(),
    ensures
        counted(list, labels) == counted(list.drop_last(), labels) + if labels.contains(
            list.last(),
        ) {
            1nat
        } else {
            0nat
        },
    decreases labels.len(),
{
    if labels.len() > 0 {
        let fewer = labels.drop_last();
        assert forall|i: int, j: int| 0 <= i < j < fewer.len() implies fewer[i] != fewer[j] by {
            assert(fewer[i] == labels[i] && fewer[j] == labels[j]);
        }
        lemma_counted_one_more(list, fewer);
        let x = list.last();
        if labels.last() == x {
            if fewer.contains(x) {
                let i = choose|i: int| 0 <= i < fewer.len() && fewer[i] == x;
                assert(labels[i] == x && labels[labels.len() - 1] == x);
            }
            assert(labels[labels.len() - 1] == x);
        } else {
            if labels.contains(x) {
                let i = choose|i: int| 0 <= i < labels.len() && labels[i] == x;
                assert(fewer[i] == x);
            }
            if fewer.contains(x) {
                let i = choose|i: int| 0 <= i < fewer.len() && fewer[i] == x;
                assert(labels[i] == x);
            }
        }
    }
}

/// What a voxel gathers from its neighbours is no NaN and not negative.
pub proof fn lemma_gathered_non_negative(
    m: Map<Position, Seq<i32>>,
    p: Position,
    label: i32,
    n: nat,
)
    requires
        n <= 7,
    ensures
        non_negative(gathered(m, p, label, n).0),
        gathered(m, p, label, n).1 <= n,
    decreases n,
{
    if n > 0 {
        lemma_gathered_non_negative(m, p, label, (n - 1) as nat);
        let before = gathered(m, p, label, (n - 1) as nat);
        let q = stepped(p, steps()[n - 1]);
        if m.contains_key(q) && less(0, local(m[q], label)) {
            let w = weights()[n - 1];
            assert(positive_finite(w));
            lemma_results_non_negative(w, local(m[q], label));
            lemma_results_non_negative(before.0, product(w, local(m[q], label)));
        }
    }
}

/// The neighbour probability is no NaN and not negative.
pub proof fn lemma_around_non_negative(m: Map<Position, Seq<i32>>, p: Position, label: i32)
    ensures
        non_negative(around(m, p, label)),
{
    lemma_gathered_non_negative(m, p, label, 7);
    let g = gathered(m, p, label, 7);
    if g.1 != 0 {
        lemma_count_is_finite(g.1 as int);
        lemma_results_non_negative(g.0, from_int(g.1 as int));
    }
}

/// At a voxel where a single label was observed, that label has local
/// probability one, and the voxel chooses it whatever its neighbours hold.
pub proof fn lemma_single_label_wins(m: Map<Position, Seq<i32>>, p: Position, label: i32)
    requires
        0 < m[p].len() < 0x1_0000_0000_0000_0000,
        forall|i: int| 0 <= i < m[p].len() ==> m[p][i] == label,
    ensures
        local(m[p], label) == 0x3F80_0000,
        less(0, score(m, p, label)),
        winner(m, p) == label,
{
    reveal(score);
    lemma_count_bounds(m[p], label);
    lemma_count_is_finite(m[p].len() as int);
    lemma_quotient_self(from_int(m[p].len() as int));
    lemma_around_non_negative(m, p, label);
    lemma_sum_with_one_positive(around(m, p, label));
    lemma_single_label_leads(m, p, label, m[p].len());
}

proof fn lemma_single_label_leads(m: Map<Position, Seq<i32>>, p: Position, label: i32, n: nat)
    requires
        0 < n <= m[p].len(),
        forall|i: int| 0 <= i < m[p].len() ==> m[p][i] == label,
        less(0, score(m, p, label)),
    ensures
        leader(m, p, n) == (label, score(m, p, label)),
    decreases n,
{
    let s = score(m, p, label);
    assert(m[p][n - 1] == label);
    if n > 1 {
        lemma_single_label_leads(m, p, label, (n - 1) as nat);
        assert(leader(m, p, (n - 1) as nat) == (label, s));
        assert(!less(s, s));
    } else {
        assert(leader(m, p, 0) == (0i32, 0u32));
    }
}

/// The score of the label of the `i`-th observation of a voxel.
pub open spec fn score_at(m: Map<Position, Seq<i32>>, p: Position, i: int) -> u32 {
    score(m, p, m[p][i])
}

/// The place of the observation in the lead after the first `n`
/// observations of a voxel; -1 while none has taken the lead.
pub open spec fn lead(m: Map<Position, Seq<i32>>, p: Position, n: nat) -> int
    decreases n,
{
    if n == 0 {
        -1
    } else {
        let before = lead(m, p, (n - 1) as nat);
        let high = if before < 0 {
            0u32
        } else {
            score_at(m, p, before)
        };
        if less(high, score_at(m, p, n - 1)) {
            n - 1
        } else {
            before
        }
    }
}

proof fn lemma_order(a: u32, b: u32, c: u32)
    requires
        !is_nan(a) && !is_nan(b) && !is_nan(c),
        !less(a, b),
        less(a, c),
    ensures
        less(b, c),
        !less(c, b),
{
}

/// The voxel's choice is the first of the observations with the highest
/// score. Where no score is a NaN: if no score is positive, no observation
/// takes the lead and the choice is 0; otherwise the choice is the label of
/// an observation whose score is positive, that no other observation
/// exceeds, and that every earlier observation falls short of.
pub proof fn lemma_leader_is_first_best(m: Map<Position, Seq<i32>>, p: Position, n: nat)
    requires
        n <= m[p].len(),
        forall|i: int| 0 <= i < n ==> !is_nan(#[trigger] score_at(m, p, i)),
    ensures
        -1 <= lead(m, p, n) < n,
        lead(m, p, n) < 0 ==> leader(m, p, n) == (0i32, 0u32) && forall|j: int|
            0 <= j < n ==> !less(0, #[trigger] score_at(m, p, j)),
        lead(m, p, n) >= 0 ==> {
            let w = lead(m, p, n);
            &&& leader(m, p, n) == (m[p][w], score_at(m, p, w))
            &&& less(0, score_at(m, p, w))
            &&& forall|j: int| 0 <= j < n ==> !less(score_at(m, p, w), #[trigger] score_at(m, p, j))
            &&& forall|j: int| 0 <= j < w ==> less(#[trigger] score_at(m, p, j), score_at(m, p, w))
        },
    decreases n,
{
    if n > 0 {
        lemma_leader_is_first_best(m, p, (n - 1) as nat);
        let before = lead(m, p, (n - 1) as nat);
        let s = score_at(m, p, n - 1);
        assert(!is_nan(s));
        let w = lead(m, p, n);
        if before >= 0 {
            let high = score_at(m, p, before);
            assert(!is_nan(high));
            if less(high, s) {
                assert forall|j: int| 0 <= j < n implies !less(
                    score_at(m, p, w),
                    #[trigger] score_at(m, p, j),
                ) by {
                    if j < n - 1 {
                        lemma_order(high, score_at(m, p, j), s);
                    }
                }
                assert forall|j: int| 0 <= j < w implies less(
                    #[trigger] score_at(m, p, j),
                    score_at(m, p, w),
                ) by {
                    lemma_order(high, score_at(m, p, j), s);
                }
            }
        } else {
            if less(0, s) {
                assert forall|j: int| 0 <= j < n implies !less(
                    score_at(m, p, w),
                    #[trigger] score_at(m, p, j),
                ) by {
                    if j < n - 1 {
                        lemma_order(0, score_at(m, p, j), s);
                    }
                }
                assert forall|j: int| 0 <= j < w implies less(
                    #[trigger] score_at(m, p, j),
                    score_at(m, p, w),
                ) by {
                    lemma_order(0, score_at(m, p, j), s);
                }
            }
        }
    }
}

/// Writing labels changes no voxel but those of the list: elsewhere the
/// grid holds what it held.
pub proof fn lemma_painted_elsewhere(g: GridView, entries: Seq<(Position, i32)>, p: Position)
    requires
        g.wf(),
        inside(g, p),
        forall|i: int| 0 <= i < entries.len() ==> inside(g, (#[trigger] entries[i]).0),
        forall|i: int| 0 <= i < entries.len() ==> (#[trigger] entries[i]).0 != p,
    ensures
        value_at(painted(g, entries), p) == value_at(g, p),
    decreases entries.len(),
{
    if entries.len() > 0 {
        let rest = entries.drop_last();
        assert forall|i: int| 0 <= i < rest.len() implies inside(g, (#[trigger] rest[i]).0)
            && rest[i].0 != p by {
            assert(rest[i] == entries[i]);
        }
        lemma_painted_elsewhere(g, rest, p);
        lemma_painted_extents(g, rest);
        let q = entries.last().0;
        assert(entries[entries.len() - 1].0 == q);
        let h = painted(g, rest);
        if h.offset(0, q.z as int, q.y as int, q.x as int) == h.offset(
            0,
            p.z as int,
            p.y as int,
            p.x as int,
        ) {
            lemma_offset_injective(
                h,
                0,
                q.z as int,
                q.y as int,
                q.x as int,
                0,
                p.z as int,
                p.y as int,
                p.x as int,
            );
        }
        lemma_offset_in_range(h, 0, p.z as int, p.y as int, p.x as int);
        lemma_offset_in_range(h, 0, q.z as int, q.y as int, q.x as int);
    }
}

/// Writing labels leaves at each voxel of a list without repeated voxels
/// the number nearest to its label.
pub proof fn lemma_painted_there(g: GridView, entries: Seq<(Position, i32)>, k: int)
    requires
        g.wf(),
        0 <= k < entries.len(),
        forall|i: int| 0 <= i < entries.len() ==> inside(g, (#[trigger] entries[i]).0),
        forall|i: int, j: int|
            0 <= i < j < entries.len() ==> (#[trigger] entries[i]).0 != (#[trigger] entries[j]).0,
    ensures
        value_at(painted(g, entries), entries[k].0) == from_int(entries[k].1 as int),
    decreases entries.len(),
{
    let rest = entries.drop_last();
    assert forall|i: int| 0 <= i < rest.len() implies inside(g, (#[trigger] rest[i]).0) by {
        assert(rest[i] == entries[i]);
    }
    lemma_painted_extents(g, rest);
    let h = painted(g, rest);
    let q = entries.last().0;
    let p = entries[k].0;
    assert(inside(g, entries[entries.len() - 1].0));
    lemma_offset_in_range(h, 0, q.z as int, q.y as int, q.x as int);
    if k < entries.len() - 1 {
        assert forall|i: int, j: int| 0 <= i < j < rest.len() implies (#[trigger] rest[i]).0 != (
        #[trigger] rest[j]).0 by {
            assert(rest[i] == entries[i] && rest[j] == entries[j]);
        }
        lemma_painted_there(g, rest, k);
        assert(rest[k] == entries[k]);
        assert(entries[k].0 != entries[entries.len() - 1].0);
        lemma_offset_in_range(h, 0, p.z as int, p.y as int, p.x as int);
        if h.offset(0, q.z as int, q.y as int, q.x as int) == h.offset(
            0,
            p.z as int,
            p.y as int,
            p.x as int,
        ) {
            lemma_offset_injective(
                h,
                0,
                q.z as int,
                q.y as int,
                q.x as int,
                0,
                p.z as int,
                p.y as int,
                p.x as int,
            );
        }
    }
}

/// Only voxels that may be filled are written: where the labels of a run
/// are written into a grid of the volume's extents, a voxel whose element
/// in the volume is none of the codes that may be filled holds what it
/// held.
pub proof fn lemma_only_fillable_written(
    scheme: Scheme,
    g: GridView,
    tracks: Seq<Seq<Position>>,
    base: GridView,
    entries: Seq<(Position, i32)>,
    p: Position,
)
    requires
        lists_exactly(entries, propagated(scheme, g, tracks)),
        base.wf(),
        base.nx == g.nx && base.ny == g.ny && base.nz == g.nz && base.nt == g.nt,
        inside(g, p),
        !scheme.fills(value_at(g, p)),
    ensures
        value_at(painted(base, entries), p) == value_at(base, p),
{
    let m = propagated(scheme, g, tracks);
    assert forall|i: int| 0 <= i < entries.len() implies inside(base, (#[trigger] entries[i]).0)
        && entries[i].0 != p by {
        assert(m.contains_key(entries[i].0));
        assert(given(scheme, g, votes(scheme, g, tracks), entries[i].0) is Some);
    }
    lemma_painted_elsewhere(base, entries, p);
}

} // verus!
