//! The piece queue: a window of upcoming pieces, refilled one shuffled bag of the seven
//! standard kinds at a time.
use vstd::prelude::*;
use rand::SeedableRng;
use rand::seq::SliceRandom;
use rand_pcg::Lcg64Xsh32;
use crate::kinds::{MinoKind, is_standard};

verus! {

#[verifier::external_type_specification]
#[verifier::external_body]
pub struct ExLcg64Xsh32(Lcg64Xsh32);

/// Relies on rand_core's `SeedableRng::seed_from_u64` for rand_pcg's PCG32 generator.
#[verifier::external_body]
fn seeded_rng(seed: u64) -> (r: Lcg64Xsh32) {
    Lcg64Xsh32::seed_from_u64(seed)
}

/// Relies on the derived `Clone` of rand_pcg's `Lcg64Xsh32`, which copies its two integer
/// fields.
#[verifier::external_body]
fn copy_rng(rng: &Lcg64Xsh32) -> (r: Lcg64Xsh32)
    ensures
        r == *rng,
{
    rng.clone()
}

/// Relies on rand's `SliceRandom::shuffle`, which only swaps elements: the result is a
/// permutation of the input.
#[verifier::external_body]
fn shuffle(bag: &mut Vec<MinoKind>, rng: &mut Lcg64Xsh32)
    ensures
        final(bag)@.len() == old(bag)@.len(),
        final(bag)@.to_multiset() == old(bag)@.to_multiset(),
{
    bag.as_mut_slice().shuffle(rng)
}

/// Each of the seven standard kinds exactly once.
pub open spec fn is_bag(s: Seq<MinoKind>) -> bool {
    &&& s.len() == 7
    &&& forall|k: MinoKind| is_standard(k) ==> #[trigger] s.to_multiset().count(k) == 1
    &&& forall|i: int| 0 <= i < 7 ==> is_standard(#[trigger] s[i])
}

/// A sequence made of whole bags, one after the other.
pub open spec fn whole_bags(s: Seq<MinoKind>) -> bool
    decreases s.len(),
{
    if s.len() == 0 {
        true
    } else {
        s.len() >= 7 && is_bag(s.take(7)) && whole_bags(s.skip(7))
    }
}

/// Default number of pieces visible ahead.
pub const DEFAULT_WINDOW_SIZE: usize = 5;

/// Largest number of pieces visible ahead: the window, up to a bag beyond it, must fit in a
/// `usize` length.
pub const MAX_WINDOW_SIZE: usize = usize::MAX - 7;

/// The upcoming pieces and the generator that shuffles the next bags.
pub struct PieceQueue {
    window: Vec<MinoKind>,
    window_size: usize,
    rng: Lcg64Xsh32,
    /// The pieces taken since the current bag began.
    drawn: Ghost<Seq<MinoKind>>,
}

/// What a queue holds: its upcoming pieces, its window size, its generator and the pieces
/// taken since the current bag began.
pub struct QueueModel {
    pub upcoming: Seq<MinoKind>,
    pub window_size: nat,
    pub rng: Lcg64Xsh32,
    pub drawn: Seq<MinoKind>,
}

impl View for PieceQueue {
    type V = QueueModel;

    closed spec fn view(&self) -> QueueModel {
        QueueModel { upcoming: self.window@, window_size: self.window_size as nat, rng: self.rng, drawn: self.drawn@ }
    }
}

/// The queue `q1` is the queue `q0` after a `take` that returned `r`.
pub open spec fn took(q0: PieceQueue, q1: PieceQueue, r: MinoKind) -> bool {
    &&& q0.upcoming().len() > 0
    &&& r == q0.upcoming()[0]
    &&& q1.window_size() == q0.window_size()
    &&& q1.upcoming().len() >= q1.window_size()
    &&& q1.upcoming().take(q0.upcoming().len() - 1) == q0.upcoming().skip(1)
    &&& q1.drawn() == if q0.drawn().len() == 6 { Seq::empty() } else { q0.drawn().push(r) }
    &&& q0.drawn().len() == 6 ==> is_bag(q0.drawn().push(r))
}

/// Bag uniformity: the seven pieces of seven takes in a row, from a queue at the start of a
/// bag, are the seven standard kinds, each exactly once.
pub proof fn lemma_bag_uniformity(qs: Seq<PieceQueue>, rs: Seq<MinoKind>)
    requires
        qs.len() == 8,
        rs.len() == 7,
        qs[0].drawn().len() == 0,
        forall|i: int| 0 <= i < 7 ==> took(#[trigger] qs[i], qs[i + 1], rs[i]),
    ensures
        is_bag(rs),
{
    lemma_drawn_prefix(qs, rs, 6);
    assert(rs.take(6).push(rs[6]) =~= rs);
}

/// After `i` of those takes, the pieces taken since the bag began are the first `i` results.
proof fn lemma_drawn_prefix(qs: Seq<PieceQueue>, rs: Seq<MinoKind>, i: int)
    requires
        qs.len() == 8,
        rs.len() == 7,
        qs[0].drawn().len() == 0,
        forall|j: int| 0 <= j < 7 ==> took(#[trigger] qs[j], qs[j + 1], rs[j]),
        0 <= i <= 6,
    ensures
        qs[i].drawn() == rs.take(i),
    decreases i,
{
    if i == 0 {
        assert(rs.take(0) =~= qs[0].drawn());
    } else {
        lemma_drawn_prefix(qs, rs, i - 1);
        assert(took(qs[i - 1], qs[i], rs[i - 1]));
        assert(rs.take(i - 1).push(rs[i - 1]) =~= rs.take(i));
    }
}

impl PieceQueue {
    /// The upcoming pieces, the next one first.
    pub closed spec fn upcoming(&self) -> Seq<MinoKind> {
        self.window@
    }

    /// Number of pieces kept visible ahead.
    pub closed spec fn window_size(&self) -> nat {
        self.window_size as nat
    }

    /// The pieces taken since the current bag began.
    pub closed spec fn drawn(&self) -> Seq<MinoKind> {
        self.drawn@
    }

    pub closed spec fn wf(&self) -> bool {
        &&& 1 <= self.window_size <= MAX_WINDOW_SIZE
        &&& self.window@.len() >= self.window_size
        &&& self.window@.len() < self.window_size + 7
        &&& self.drawn@.len() < 7
        &&& whole_bags(self.drawn@ + self.window@)
    }

    /// A queue that shows `window_size` pieces ahead, its bags shuffled by a generator seeded
    /// with `seed`.
    pub fn new(seed: u64, window_size: usize) -> (r: PieceQueue)
        requires
            1 <= window_size <= MAX_WINDOW_SIZE,
        ensures
            r.wf(),
            r.window_size() == window_size,
            r.upcoming().len() >= window_size,
            r.drawn().len() == 0,
            whole_bags(r.upcoming()),
    {
        let mut q = PieceQueue {
            window: Vec::new(),
            window_size,
            rng: seeded_rng(seed),
            drawn: Ghost(Seq::empty()),
        };
        proof {
            assert(q.drawn@ + q.window@ =~= Seq::<MinoKind>::empty());
        }
        q.refill_window();
        proof {
            assert(q.drawn@ + q.window@ =~= q.window@);
        }
        q
    }

    /// The upcoming pieces, the next one first.
    pub fn window(&self) -> (r: &Vec<MinoKind>)
        ensures
            r@ == self.upcoming(),
    {
        &self.window
    }

    /// The next piece, left in the queue.
    pub fn peek(&self) -> (r: MinoKind)
        requires
            self.wf(),
        ensures
            r == self.upcoming()[0],
            is_standard(r),
    {
        proof {
            self.lemma_window_standard();
        }
        self.window[0]
    }

    /// Removes the next piece and returns it, refilling the window by whole bags.
    pub fn take(&mut self) -> (r: MinoKind)
        requires
            old(self).wf(),
        ensures
            final(self).wf(),
            took(*old(self), *final(self), r),
            is_standard(r),
    {
        proof {
            self.lemma_window_standard();
        }
        let ghost s = self.drawn@ + self.window@;
        let r = self.window.remove(0);
        let ghost d = self.drawn@.push(r);
        proof {
            if self.drawn@.len() == 6 {
                assert(s.take(7) =~= d);
                assert(s.skip(7) =~= self.window@);
                self.drawn = Ghost(Seq::empty());
                assert(self.drawn@ + self.window@ =~= self.window@);
            } else {
                self.drawn = Ghost(d);
                assert(self.drawn@ + self.window@ =~= s);
            }
        }
        let ghost w = self.window@;
        self.refill_window();
        proof {
            assert(self.window@.take(w.len() as int) == w);
        }
        r
    }

    /// Appends shuffled bags until the window holds `window_size` pieces.
    fn refill_window(&mut self)
        requires
            1 <= old(self).window_size <= MAX_WINDOW_SIZE,
            old(self).window@.len() < old(self).window_size + 7,
            old(self).drawn@.len() < 7,
            whole_bags(old(self).drawn@ + old(self).window@),
        ensures
            final(self).wf(),
            old(self).window@.len() >= old(self).window_size ==> *final(self) == *old(self),
            final(self).window_size == old(self).window_size,
            final(self).drawn == old(self).drawn,
            final(self).window@.take(old(self).window@.len() as int) == old(self).window@,
            whole_bags(final(self).window@.skip(old(self).window@.len() as int)),
    {
        let ghost w0 = self.window@;
        assert(self.window@.skip(w0.len() as int) =~= Seq::<MinoKind>::empty());
        while self.window.len() < self.window_size
            invariant
                1 <= self.window_size <= MAX_WINDOW_SIZE,
                self.window_size == old(self).window_size,
                self.drawn == old(self).drawn,
                w0 == old(self).window@,
                self.drawn@.len() < 7,
                self.window@.len() < self.window_size + 7,
                self.window@.len() >= w0.len(),
                self.window@.take(w0.len() as int) == w0,
                whole_bags(self.drawn@ + self.window@),
                whole_bags(self.window@.skip(w0.len() as int)),
                w0.len() >= self.window_size ==> *self == *old(self),
            decreases self.window_size + 7 - self.window@.len(),
        {
            let mut bag = vec![MinoKind::Z, MinoKind::S, MinoKind::T, MinoKind::L, MinoKind::J, MinoKind::I, MinoKind::O];
            proof {
                lemma_standard_bag(bag@);
            }
            let ghost before = bag@;
            shuffle(&mut bag, &mut self.rng);
            proof {
                assert(is_bag(bag@)) by {
                    assert forall|k: MinoKind| is_standard(k) implies #[trigger] bag@.to_multiset().count(k) == 1 by {
                        assert(before.to_multiset().count(k) == 1);
                    }
                    assert forall|j: int| 0 <= j < 7 implies is_standard(#[trigger] bag@[j]) by {
                        vstd::seq_lib::to_multiset_contains(bag@, bag@[j]);
                        assert(bag@.contains(bag@[j]));
                        vstd::seq_lib::to_multiset_contains(before, bag@[j]);
                    }
                }
            }
            let ghost prefix = self.drawn@ + self.window@;
            let ghost w = self.window@;
            let mut i: usize = 0;
            while i < 7
                invariant
                    i <= 7,
                    bag@.len() == 7,
                    1 <= self.window_size <= MAX_WINDOW_SIZE,
                    self.window_size == old(self).window_size,
                    self.drawn == old(self).drawn,
                    self.window@ == w + bag@.take(i as int),
                decreases 7 - i,
            {
                self.window.push(bag[i]);
                i = i + 1;
                assert(self.window@ =~= w + bag@.take(i as int));
            }
            proof {
                assert(bag@.take(7) == bag@);
                lemma_whole_bags_append(prefix, bag@);
                assert(self.drawn@ + self.window@ =~= prefix + bag@);
                assert(self.window@.take(w0.len() as int) =~= w.take(w0.len() as int));
                lemma_whole_bags_append(w.skip(w0.len() as int), bag@);
                assert(self.window@.skip(w0.len() as int) =~= w.skip(w0.len() as int) + bag@);
            }
        }
    }

    /// Every upcoming piece is a standard kind.
    proof fn lemma_window_standard(&self)
        requires
            self.wf(),
        ensures
            forall|i: int| 0 <= i < self.window@.len() ==> is_standard(#[trigger] self.window@[i]),
    {
        let s = self.drawn@ + self.window@;
        lemma_whole_bags_standard(s);
        assert forall|i: int| 0 <= i < self.window@.len() implies is_standard(#[trigger] self.window@[i]) by {
            assert(self.window@[i] == s[i + self.drawn@.len()]);
        }
    }

    /// A copy of the queue, generator state included.
    pub fn snapshot(&self) -> (r: PieceQueue)
        ensures
            r@ == self@,
            r.wf() == self.wf(),
    {
        let window = self.window.clone();
        assert(window@ =~= self.window@);
        let r = PieceQueue {
            window,
            window_size: self.window_size,
            rng: copy_rng(&self.rng),
            drawn: Ghost(self.drawn@),
        };
        r
    }
}

/// The bag that the queue shuffles holds each standard kind once.
proof fn lemma_standard_bag(s: Seq<MinoKind>)
    requires
        s == seq![MinoKind::Z, MinoKind::S, MinoKind::T, MinoKind::L, MinoKind::J, MinoKind::I, MinoKind::O],
    ensures
        is_bag(s),
{
    broadcast use vstd::seq_lib::group_to_multiset_ensures, vstd::multiset::group_multiset_axioms;
    let e = Seq::<MinoKind>::empty();
    assert(s =~= e.push(MinoKind::Z).push(MinoKind::S).push(MinoKind::T).push(MinoKind::L)
        .push(MinoKind::J).push(MinoKind::I).push(MinoKind::O));
    assert(e.to_multiset() =~= vstd::multiset::Multiset::empty());
}

/// Appending a bag to whole bags gives whole bags.
proof fn lemma_whole_bags_append(s: Seq<MinoKind>, b: Seq<MinoKind>)
    requires
        whole_bags(s),
        is_bag(b),
    ensures
        whole_bags(s + b),
    decreases s.len(),
{
    if s.len() == 0 {
        assert(s + b =~= b);
        assert(b.take(7) =~= b);
        assert(b.skip(7) =~= Seq::<MinoKind>::empty());
        assert(whole_bags(b.skip(7)));
    } else {
        lemma_whole_bags_append(s.skip(7), b);
        assert((s + b).take(7) =~= s.take(7));
        assert((s + b).skip(7) =~= s.skip(7) + b);
    }
}

/// Whole bags hold standard kinds only.
proof fn lemma_whole_bags_standard(s: Seq<MinoKind>)
    requires
        whole_bags(s),
    ensures
        forall|i: int| 0 <= i < s.len() ==> is_standard(#[trigger] s[i]),
    decreases s.len(),
{
    broadcast use vstd::seq_lib::group_to_multiset_ensures;
    if s.len() > 0 {
        lemma_whole_bags_standard(s.skip(7));
        assert forall|i: int| 0 <= i < s.len() implies is_standard(#[trigger] s[i]) by {
            if i < 7 {
                let t = s.take(7);
                assert(t[i] == s[i]);
            } else {
                assert(s.skip(7)[i - 7] == s[i]);
            }
        }
    }
}

} // verus!
