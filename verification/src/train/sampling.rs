//! Windows, how they are split, and the order in which they are shown.
use crate::model::multi_tf::parts;
use rand::rngs::StdRng;
use vstd::prelude::*;

verus! {

/// How many windows a series has.
pub open spec fn windows_in(bars: usize, seq_len: usize) -> Option<usize> {
    if bars < seq_len {
        None
    } else {
        Some((bars - seq_len + 1) as usize)
    }
}

/// How many windows a series has: one ends at every bar that has enough bars
/// before it. There is none in a series shorter than a window.
pub fn window_count(bars: usize, seq_len: usize) -> (windows: Option<usize>)
    requires
        seq_len > 0,
    ensures
        windows == windows_in(bars, seq_len),
        windows == (if bars < seq_len { None } else { Some((bars - seq_len + 1) as usize) }),
{
    if bars < seq_len {
        None
    } else {
        Some(bars - seq_len + 1)
    }
}

/// The first and the last bar of a window.
pub fn window_bounds(window: usize, seq_len: usize) -> (bounds: (usize, usize))
    requires
        seq_len > 0,
        window + seq_len <= usize::MAX,
    ensures
        bounds.0 == window,
        bounds.1 == window + seq_len - 1,
{
    (window, window + seq_len - 1)
}

/// How many windows are held back.
pub open spec fn held_back(share: usize) -> usize {
    if share == 0 {
        1
    } else {
        share
    }
}

/// How many windows are trained on and how many are held back: as many as the
/// share rounds to, and at least one.
pub fn split_windows(windows: usize, share: usize) -> (split: (usize, usize))
    requires
        1 <= windows,
        share <= windows,
    ensures
        split.0 + split.1 == windows,
        split.1 == (if share == 0 { 1 } else { share as int }),
        split.1 == held_back(share),
{
    let held: usize = if share < 1 { 1 } else { share };
    (windows - held, held)
}

/// The numbers below `n` in order.
pub open spec fn in_order(n: int) -> Seq<usize> {
    Seq::new(n as nat, |i: int| i as usize)
}

/// A list with two of its places exchanged.
pub open spec fn exchanged(list: Seq<usize>, i: int, j: int) -> Seq<usize> {
    list.update(i, list[j]).update(j, list[i])
}

/// The numbers below `n` after the first draws: each draw says which place is
/// exchanged with the last place that no draw has settled yet.
pub open spec fn after_draws(n: int, draws: Seq<usize>, t: int) -> Seq<usize>
    decreases t,
{
    if t <= 0 {
        in_order(n)
    } else {
        exchanged(after_draws(n, draws, t - 1), n - t, draws[t - 1] as int)
    }
}

/// Whether a list holds every number below its length once.
pub open spec fn is_permutation(list: Seq<usize>) -> bool {
    &&& forall|i: int| 0 <= i < list.len() ==> 0 <= #[trigger] list[i] < list.len()
    &&& forall|i: int, j: int|
        0 <= i < j < list.len() ==> #[trigger] list[i] != #[trigger] list[j]
}

/// Whether each draw names a place that is not settled yet.
pub open spec fn are_draws(draws: Seq<usize>, n: int) -> bool {
    &&& draws.len() == (if n > 0 { n - 1 } else { 0 })
    &&& forall|t: int| 0 <= t < draws.len() ==> #[trigger] draws[t] <= n - 1 - t
}

/// The order that draws give.
pub fn order_from_draws(n: usize, draws: &[usize]) -> (order: Vec<usize>)
    requires
        are_draws(draws@, n as int),
    ensures
        order@ == after_draws(n as int, draws@, draws@.len() as int),
        order@.len() == n,
        is_permutation(order@),
{
    let mut order: Vec<usize> = Vec::new();
    let mut i: usize = 0;
    while i < n
        invariant
            i <= n,
            order@.len() == i,
            forall|j: int| 0 <= j < i ==> #[trigger] order@[j] == j,
        decreases n - i,
    {
        order.push(i);
        i += 1;
    }
    assert(order@ =~= in_order(n as int));
    let mut t: usize = 0;
    while t < draws.len()
        invariant
            t <= draws@.len(),
            are_draws(draws@, n as int),
            order@ == after_draws(n as int, draws@, t as int),
            order@.len() == n,
            is_permutation(order@),
        decreases draws@.len() - t,
    {
        let i: usize = n - 1 - t;
        let j: usize = draws[t];
        let a: usize = order[i];
        let b: usize = order[j];
        order.set(i, b);
        order.set(j, a);
        t += 1;
        assert(n - t == i);
    }
    order
}

/// What the numbers that a generator gives hang on.
pub struct ShufflerView {
    pub seed: u64,
    /// The bounds of all draws so far.
    pub bounds: Seq<u64>,
}

/// `rand`'s generator.
#[verifier::external_type_specification]
#[verifier::external_body]
pub struct ExStdRng(rand::rngs::StdRng);

/// The seed that `seed_from_u64` made a generator from, and the bounds up to
/// which numbers have been drawn from it since; nothing for a generator that
/// was made or used in another way.
pub uninterp spec fn rng_history(rng: StdRng) -> Option<ShufflerView>;

/// The number that `rand::Rng::gen_range` draws up to a bound from a generator
/// that was made from a seed, after draws up to some bounds.
pub uninterp spec fn drawn_number(seed: u64, bounds: Seq<u64>, most: u64) -> u64;

/// `rand::SeedableRng::seed_from_u64`: the generator of a seed.
#[verifier::external_body]
fn seeded(seed: u64) -> (rng: StdRng)
    ensures
        rng_history(rng) == Some((ShufflerView { seed, bounds: Seq::empty() })),
{
    rand::SeedableRng::seed_from_u64(seed)
}

/// `rand::Rng::gen_range` from zero up to and with a number: a number within
/// these bounds, and a function of the seed, of the draws before and of the
/// bound.
#[verifier::external_body]
fn draw_up_to(rng: &mut StdRng, most: u64) -> (drawn: u64)
    requires
        rng_history(*old(rng)) is Some,
    ensures
        drawn <= most,
        drawn == drawn_number(
            (rng_history(*old(rng))->0).seed,
            (rng_history(*old(rng))->0).bounds,
            most,
        ),
        rng_history(*final(rng)) == Some(
            (ShufflerView {
                seed: (rng_history(*old(rng))->0).seed,
                bounds: (rng_history(*old(rng))->0).bounds.push(most),
            }),
        ),
{
    rand::Rng::gen_range(rng, 0..=most)
}

/// The bounds of the first draws that put `n` numbers in an order.
pub open spec fn draw_bounds(n: int, t: int) -> Seq<u64> {
    Seq::new(t as nat, |s: int| (n - 1 - s) as u64)
}

/// The draws that put `n` numbers in an order, from a generator of a seed after
/// draws up to some bounds.
pub open spec fn draws_of(seed: u64, bounds: Seq<u64>, n: int) -> Seq<usize> {
    Seq::new(
        (if n > 0 { n - 1 } else { 0 }) as nat,
        |t: int|
            drawn_number(seed, bounds + draw_bounds(n, t), (n - 1 - t) as u64) as usize,
    )
}

/// The order of `n` numbers that a generator gives next.
pub open spec fn drawn_order(seed: u64, bounds: Seq<u64>, n: int) -> Seq<usize> {
    after_draws(n, draws_of(seed, bounds, n), draws_of(seed, bounds, n).len() as int)
}

/// Gives orders drawn by chance, but the same ones for the same seed.
pub struct Shuffler {
    rng: StdRng,
}

impl View for Shuffler {
    type V = ShufflerView;

    closed spec fn view(&self) -> ShufflerView {
        rng_history(self.rng)->0
    }
}

impl Shuffler {
    /// Whether the shuffler was made from a seed.
    pub closed spec fn wf(self) -> bool {
        rng_history(self.rng) is Some
    }

    /// The shuffler of a seed.
    pub fn new(seed: u64) -> (shuffler: Shuffler)
        ensures
            shuffler.wf(),
            shuffler@ == (ShufflerView { seed, bounds: Seq::empty() }),
    {
        Shuffler { rng: seeded(seed) }
    }

    /// Puts the numbers below `n` in the order that is next.
    pub fn shuffle(&mut self, n: usize) -> (order: Vec<usize>)
        requires
            old(self).wf(),
        ensures
            final(self).wf(),
            order@ == drawn_order(old(self)@.seed, old(self)@.bounds, n as int),
            final(self)@ == (ShufflerView {
                seed: old(self)@.seed,
                bounds: old(self)@.bounds + draw_bounds(n as int, if n > 0 { n - 1 } else { 0 }),
            }),
            order@.len() == n,
            is_permutation(order@),
    {
        let ghost seed = self@.seed;
        let ghost bounds = self@.bounds;
        let mut draws: Vec<usize> = Vec::new();
        let mut t: usize = 1;
        assert(bounds + draw_bounds(n as int, 0) =~= bounds);
        while t < n
            invariant
                1 <= t,
                t <= n || t == 1,
                self.wf(),
                self@.seed == seed,
                self@.bounds == bounds + draw_bounds(n as int, t - 1),
                draws@.len() == t - 1,
                forall|s: int|
                    0 <= s < draws@.len() ==> #[trigger] draws@[s] <= n - 1 - s && draws@[s]
                        == drawn_number(
                        seed,
                        bounds + draw_bounds(n as int, s),
                        (n - 1 - s) as u64,
                    ) as usize,
            decreases n - t,
        {
            let most: u64 = (n - t) as u64;
            assert((bounds + draw_bounds(n as int, t - 1)).push(most) =~= bounds + draw_bounds(
                n as int,
                t as int,
            ));
            let drawn: u64 = draw_up_to(&mut self.rng, most);
            draws.push(drawn as usize);
            t += 1;
        }
        assert(draws@ =~= draws_of(seed, bounds, n as int));
        order_from_draws(n, draws.as_slice())
    }
}

/// The bounds of all draws of some shuffles of `n` numbers.
pub open spec fn shuffle_bounds(n: int, shuffles: int) -> Seq<u64>
    decreases shuffles,
{
    if shuffles <= 0 {
        Seq::empty()
    } else {
        shuffle_bounds(n, shuffles - 1) + draw_bounds(n, if n > 0 { n - 1 } else { 0 })
    }
}

/// A shuffler that has been asked for so many orders of `n` numbers, and for
/// nothing else.
pub open spec fn has_shuffled(shuffler: ShufflerView, seed: u64, n: int, shuffles: int) -> bool {
    shuffler.seed == seed && shuffler.bounds == shuffle_bounds(n, shuffles)
}

/// Equal seeds give equal orders: the order of an epoch is a function of the
/// seed, of how many windows there are and of the epoch.
pub proof fn law_equal_seeds_give_equal_orders(
    a: ShufflerView,
    b: ShufflerView,
    seed: u64,
    n: int,
    epoch: int,
)
    requires
        0 <= epoch,
        has_shuffled(a, seed, n, epoch),
        has_shuffled(b, seed, n, epoch),
    ensures
        drawn_order(a.seed, a.bounds, n) == drawn_order(b.seed, b.bounds, n),
        has_shuffled(
            ShufflerView {
                seed: a.seed,
                bounds: a.bounds + draw_bounds(n, if n > 0 { n - 1 } else { 0 }),
            },
            seed,
            n,
            epoch + 1,
        ),
        has_shuffled(ShufflerView { seed, bounds: Seq::empty() }, seed, n, 0),
{
}

/// Where a batch begins and where it ends: the place after its last.
pub open spec fn batch_bounds(n: int, size: int, b: int) -> (int, int) {
    (b * size, if (b + 1) * size < n { (b + 1) * size } else { n })
}

/// The batches of a list: all of one size, but for the last, which may be
/// smaller.
pub fn batches(n: usize, size: usize) -> (bounds: Vec<(usize, usize)>)
    requires
        size > 0,
    ensures
        bounds@.len() == parts(n as int, size as int),
        forall|b: int|
            0 <= b < bounds@.len() ==> ((#[trigger] bounds@[b]).0 as int, bounds@[b].1 as int)
                == batch_bounds(n as int, size as int, b),
{
    let mut bounds: Vec<(usize, usize)> = Vec::new();
    let mut start: usize = 0;
    assert(0 * size == 0) by (nonlinear_arith);
    while start < n
        invariant
            start <= n,
            size > 0,
            start == (if bounds@.len() * size < n { bounds@.len() * size } else { n as int }),
            bounds@.len() > 0 ==> (bounds@.len() - 1) * size < n,
            forall|b: int|
                0 <= b < bounds@.len() ==> ((#[trigger] bounds@[b]).0 as int, bounds@[b].1 as int)
                    == batch_bounds(n as int, size as int, b),
        decreases n - start,
    {
        let end: usize = if size < n - start { start + size } else { n };
        proof {
            let b = bounds@.len() as int;
            assert((b + 1) * size == b * size + size) by (nonlinear_arith);
        }
        bounds.push((start, end));
        start = end;
    }
    proof {
        let k = bounds@.len() as int;
        lemma_batch_count(n as int, size as int, k);
    }
    bounds
}

proof fn lemma_batch_count(n: int, size: int, k: int)
    requires
        size > 0,
        0 <= n <= k * size,
        k >= 0,
        k > 0 ==> (k - 1) * size < n,
        k == 0 ==> n == 0,
    ensures
        parts(n, size) == k,
{
    let rest = n + size - 1 - k * size;
    assert(k * size - size == (k - 1) * size) by (nonlinear_arith);
    assert(0 <= rest < size);
    vstd::arithmetic::div_mod::lemma_fundamental_div_mod_converse(n + size - 1, size, k, rest);
}

/// The batches of a list follow each other from its start to its end.
pub proof fn law_batches_cover_the_list(n: int, size: int, b: int)
    requires
        n > 0,
        size > 0,
        0 <= b < parts(n, size),
    ensures
        batch_bounds(n, size, 0).0 == 0,
        batch_bounds(n, size, b).0 < batch_bounds(n, size, b).1 <= n,
        batch_bounds(n, size, b).1 - batch_bounds(n, size, b).0 <= size,
        b + 1 < parts(n, size) ==> batch_bounds(n, size, b + 1).0 == batch_bounds(n, size, b).1,
        b + 1 == parts(n, size) ==> batch_bounds(n, size, b).1 == n,
{
    let k = parts(n, size);
    vstd::arithmetic::div_mod::lemma_fundamental_div_mod(n + size - 1, size);
    vstd::arithmetic::div_mod::lemma_mod_bound(n + size - 1, size);
    vstd::arithmetic::mul::lemma_mul_is_commutative(k, size);
    assert((b + 1) * size == b * size + size) by (nonlinear_arith);
    assert((b + 1) * size <= k * size) by (nonlinear_arith)
        requires
            b + 1 <= k,
            size > 0,
    ;
    if b + 1 < k {
        assert((b + 2) * size <= k * size) by (nonlinear_arith)
            requires
                b + 2 <= k,
                size > 0,
        ;
        assert((b + 2) * size == (b + 1) * size + size) by (nonlinear_arith);
    }
}

/// Before any draw the numbers stand in order. Each draw exchanges the place that
/// it names with the last place that is not settled yet, and leaves every other
/// as it is.
pub proof fn law_draws_exchange_places(n: int, draws: Seq<usize>, t: int, i: int)
    requires
        1 <= t < n <= usize::MAX,
        t <= draws.len(),
        forall|u: int| 0 <= u < t ==> #[trigger] draws[u] <= n - 1 - u,
        0 <= i < n,
    ensures
        ({
            let before = after_draws(n, draws, t - 1);
            let after = after_draws(n, draws, t);
            let last = n - t;
            let named = draws[t - 1] as int;
            &&& after.len() == n
            &&& after[last] == before[named]
            &&& after[named] == before[last]
            &&& i != last && i != named ==> after[i] == before[i]
            &&& after_draws(n, draws, 0)[i] == i
        }),
{
    lemma_drawn_length(n, draws, t - 1);
    assert(draws[t - 1] <= n - t);
}

proof fn lemma_drawn_length(n: int, draws: Seq<usize>, t: int)
    requires
        0 <= t < n,
        forall|u: int| 0 <= u < t ==> #[trigger] draws[u] <= n - 1 - u,
    ensures
        after_draws(n, draws, t).len() == n,
    decreases t,
{
    if t > 0 {
        lemma_drawn_length(n, draws, t - 1);
        assert(draws[t - 1] <= n - t);
    }
}

proof fn lemma_settled(n: int, draws: Seq<usize>, s: int, t: int)
    requires
        1 <= s <= t < n <= usize::MAX,
        t <= draws.len(),
        forall|u: int| 0 <= u < draws.len() ==> #[trigger] draws[u] <= n - 1 - u,
    ensures
        after_draws(n, draws, t)[n - s] == after_draws(n, draws, s - 1)[draws[s - 1] as int],
    decreases t - s,
{
    assert(draws[t - 1] <= n - t);
    law_draws_exchange_places(n, draws, t, n - s);
    if s < t {
        lemma_settled(n, draws, s, t - 1);
    }
}

/// What a draw settles stays: the place that it settles holds in the end what
/// stood at the place that it named.
pub proof fn law_settled_places_stay(n: int, draws: Seq<usize>, s: int)
    requires
        1 <= s < n <= usize::MAX,
        are_draws(draws, n),
    ensures
        after_draws(n, draws, draws.len() as int)[n - s] == after_draws(
            n,
            draws,
            s - 1,
        )[draws[s - 1] as int],
{
    lemma_settled(n, draws, s, n - 1);
}

/// The draws of an order: the first is up to the last number, each further one up
/// to one less, and each is what the generator gives after all before it.
pub proof fn law_orders_are_drawn_downward(seed: u64, bounds: Seq<u64>, n: int, t: int)
    requires
        0 <= t < n - 1,
        n <= usize::MAX,
    ensures
        draws_of(seed, bounds, n).len() == n - 1,
        draw_bounds(n, t + 1).len() == t + 1,
        draw_bounds(n, t + 1)[t] == (n - 1 - t) as u64,
        draw_bounds(n, t + 1).drop_last() == draw_bounds(n, t),
        draws_of(seed, bounds, n)[t] == drawn_number(
            seed,
            bounds + draw_bounds(n, t),
            (n - 1 - t) as u64,
        ) as usize,
        drawn_order(seed, bounds, n) == after_draws(n, draws_of(seed, bounds, n), n - 1),
{
    assert(draw_bounds(n, t + 1).drop_last() =~= draw_bounds(n, t));
}

/// Every batch but the last is full: it has as many as asked for.
pub proof fn law_batches_are_full(n: int, size: int, b: int)
    requires
        n > 0,
        size > 0,
        0 <= b < parts(n, size),
    ensures
        b + 1 < parts(n, size) ==> batch_bounds(n, size, b).1 - batch_bounds(n, size, b).0 == size,
        batch_bounds(n, size, b).0 == b * size,
{
    law_batches_cover_the_list(n, size, b);
    if b + 1 < parts(n, size) {
        law_batches_cover_the_list(n, size, b + 1);
        assert((b + 1) * size == b * size + size) by (nonlinear_arith);
    }
}

/// A window starts at a bar if and only if as many bars as it needs are left from
/// there on; every such bar has one, counted from the first.
pub proof fn law_windows_fit_the_series(bars: usize, seq_len: usize, start: int)
    requires
        seq_len > 0,
        0 <= start,
    ensures
        start + seq_len <= bars <==> windows_in(bars, seq_len) is Some && start < windows_in(
            bars,
            seq_len,
        )->0,
        bars < seq_len <==> windows_in(bars, seq_len) is None,
{
}

/// A share is held back as it is, unless it is nothing: then one window is.
pub proof fn law_at_least_one_window_is_held_back(share: usize)
    ensures
        held_back(share) >= 1,
        held_back(share) >= share,
        share >= 1 ==> held_back(share) == share,
        held_back(share) <= share + 1,
{
}

} // verus!
