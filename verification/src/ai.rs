//! Integer side of move selection: the deterministic random stream, the
//! shuffle of the extra algorithms the loop watchdog switches on, the
//! repetition test, and the watchdog's decisions.

use vstd::prelude::*;
use crate::board::{Board, Move};
use crate::constants::N_EXTRAS;

verus! {

pub const SPLITMIX_GAMMA: u64 = 0x9E37_79B9_7F4A_7C15;

/// One SplitMix64 step on state `z`: the advanced state and the output word.
pub open spec fn splitmix(z: u64) -> (u64, u64) {
    let z2 = z.wrapping_add(SPLITMIX_GAMMA);
    let x1 = (z2 ^ (z2 >> 30u64)).wrapping_mul(0xBF58_476D_1CE4_E5B9u64);
    let x2 = (x1 ^ (x1 >> 27u64)).wrapping_mul(0x94D0_49BB_1331_11EBu64);
    (z2, x2 ^ (x2 >> 31u64))
}

/// The two state words of a generator seeded with `seed`: two SplitMix64
/// outputs, each with its low bit forced on.
pub open spec fn seeded(seed: u64) -> (u64, u64) {
    let z0 = seed.wrapping_add(SPLITMIX_GAMMA);
    let (z1, a) = splitmix(z0);
    let (z2, b) = splitmix(z1);
    (a | 1u64, b | 1u64)
}

/// One xorshift128+ step: the next state and the output word.
pub open spec fn xorshift(s: (u64, u64)) -> ((u64, u64), u64) {
    let (x0, y) = s;
    let x1 = x0 ^ (x0 << 23u64);
    let x2 = x1 ^ (x1 >> 17u64);
    let x3 = x2 ^ (y ^ (y >> 26u64));
    ((y, x3), x3.wrapping_add(y))
}

/// A call on the generator: `next_u64`, or `rand_usize` with its bound.
pub enum Call {
    NextU64,
    RandUsize(usize),
}

/// One call from state `s`: the next state and the value returned.
pub open spec fn call_step(s: (u64, u64), call: Call) -> ((u64, u64), int) {
    match call {
        Call::NextU64 => (xorshift(s).0, xorshift(s).1 as int),
        Call::RandUsize(n) => if n == 0 {
            (s, 0)
        } else {
            (xorshift(s).0, xorshift(s).1 as int % n as int)
        },
    }
}

/// The state after making the calls of `calls` in turn from `s`.
pub open spec fn state_after(s: (u64, u64), calls: Seq<Call>) -> (u64, u64)
    decreases calls.len(),
{
    if calls.len() == 0 {
        s
    } else {
        call_step(state_after(s, calls.drop_last()), calls.last()).0
    }
}

/// The values returned by the calls of `calls` made in turn from `s`.
pub open spec fn stream(s: (u64, u64), calls: Seq<Call>) -> Seq<int>
    decreases calls.len(),
{
    if calls.len() == 0 {
        Seq::empty()
    } else {
        stream(s, calls.drop_last()).push(call_step(state_after(s, calls.drop_last()), calls.last()).1)
    }
}

/// The values of the first `k` calls depend on those calls alone.
pub proof fn lemma_stream_prefix(s: (u64, u64), calls: Seq<Call>, k: int)
    requires
        0 <= k <= calls.len(),
    ensures
        stream(s, calls.take(k)) == stream(s, calls).take(k),
        stream(s, calls).len() == calls.len(),
    decreases calls.len(),
{
    if calls.len() > 0 {
        lemma_stream_prefix(s, calls.drop_last(), if k < calls.len() { k } else { 0 });
        if k == calls.len() {
            assert(calls.take(k) =~= calls);
            assert(stream(s, calls).take(k) =~= stream(s, calls));
        } else {
            assert(calls.take(k) =~= calls.drop_last().take(k));
            assert(stream(s, calls).take(k) =~= stream(s, calls.drop_last()).take(k));
        }
    }
}

/// The stream depends only on the seed: two generators made with equal
/// seeds, given calls that agree on the first `k`, return equal values on
/// those `k` calls.
pub proof fn lemma_equal_seeds_equal_streams(seed_a: u64, seed_b: u64, calls_a: Seq<Call>, calls_b: Seq<Call>, k: int)
    requires
        seed_a == seed_b,
        0 <= k <= calls_a.len(),
        k <= calls_b.len(),
        calls_a.take(k) == calls_b.take(k),
    ensures
        stream(seeded(seed_a), calls_a).take(k) == stream(seeded(seed_b), calls_b).take(k),
{
    lemma_stream_prefix(seeded(seed_a), calls_a, k);
    lemma_stream_prefix(seeded(seed_b), calls_b, k);
}

/// Small deterministic generator (xorshift128+ seeded by SplitMix64).
pub struct Rng {
    s0: u64,
    s1: u64,
}

impl View for Rng {
    type V = (u64, u64);

    closed spec fn view(&self) -> (u64, u64) {
        (self.s0, self.s1)
    }
}

fn splitmix_step(z: u64) -> (r: (u64, u64))
    ensures
        r == splitmix(z),
{
    let z2 = z.wrapping_add(SPLITMIX_GAMMA);
    let mut x = z2;
    x = (x ^ (x >> 30)).wrapping_mul(0xBF58_476D_1CE4_E5B9);
    x = (x ^ (x >> 27)).wrapping_mul(0x94D0_49BB_1331_11EB);
    (z2, x ^ (x >> 31))
}

impl Rng {
    pub fn new(seed: u64) -> (r: Rng)
        ensures
            r@ == seeded(seed),
            r@.0 % 2 == 1 && r@.1 % 2 == 1,
            r@.0 == splitmix(seed.wrapping_add(SPLITMIX_GAMMA)).1 | 1u64,
            r@.1 == splitmix(splitmix(seed.wrapping_add(SPLITMIX_GAMMA)).0).1 | 1u64,
    {
        let z0 = seed.wrapping_add(SPLITMIX_GAMMA);
        let (z1, a) = splitmix_step(z0);
        let (_z2, b) = splitmix_step(z1);
        assert((a | 1u64) % 2 == 1 && (b | 1u64) % 2 == 1) by (bit_vector);
        Rng { s0: a | 1, s1: b | 1 }
    }

    /// Next raw 64-bit output.
    pub fn next_u64(&mut self) -> (r: u64)
        ensures
            (final(self)@, r) == xorshift(old(self)@),
            (final(self)@, r as int) == call_step(old(self)@, Call::NextU64),
            final(self)@.0 == old(self)@.1,
            r == final(self)@.1.wrapping_add(old(self)@.1),
    {
        let mut x = self.s0;
        let y = self.s1;
        self.s0 = y;
        x = x ^ (x << 23);
        x = x ^ (x >> 17);
        x = x ^ (y ^ (y >> 26));
        self.s1 = x;
        x.wrapping_add(y)
    }

    /// Uniform integer in [0, n) (the next output modulo n). Returns 0 for
    /// n == 0 without advancing the stream.
    pub fn rand_usize(&mut self, n: usize) -> (r: usize)
        ensures
            n == 0 ==> r == 0 && final(self)@ == old(self)@,
            n > 0 ==> r < n
                && final(self)@ == xorshift(old(self)@).0
                && r as int == xorshift(old(self)@).1 as int % n as int,
            (final(self)@, r as int) == call_step(old(self)@, Call::RandUsize(n)),
    {
        if n == 0 {
            0
        } else {
            let v = self.next_u64();
            (v % (n as u64)) as usize
        }
    }
}

/// `s` with the entries at `i` and `j` exchanged.
pub open spec fn swapped(s: Seq<usize>, i: int, j: int) -> Seq<usize> {
    s.update(i, s[j]).update(j, s[i])
}

/// Fisher-Yates shuffle of the first `i` entries of `v`, drawing from the
/// stream state `st`: for i - 1 down to 1, the entry is exchanged with one at
/// a position drawn uniformly from [0, i]. Returns the shuffled sequence and
/// the final stream state.
pub open spec fn shuffled(v: Seq<usize>, st: (u64, u64), i: int) -> (Seq<usize>, (u64, u64))
    decreases i,
{
    if i <= 1 {
        (v, st)
    } else {
        let k = i - 1;
        let (st2, out) = xorshift(st);
        let j = out as int % (k + 1);
        shuffled(swapped(v, k, j), st2, k)
    }
}

/// Shuffle `v` in place with the generator (Fisher-Yates, last to first).
pub fn shuffle(v: &mut Vec<usize>, rng: &mut Rng)
    ensures
        (final(v)@, final(rng)@) == shuffled(old(v)@, old(rng)@, old(v)@.len() as int),
        final(v)@.len() == old(v)@.len(),
        forall|x: usize| #[trigger] final(v)@.contains(x) <==> old(v)@.contains(x),
        old(v)@.no_duplicates() ==> final(v)@.no_duplicates(),
{
    let mut i = v.len();
    while i > 1
        invariant
            i <= v.len(),
            v@.len() == old(v)@.len(),
            shuffled(old(v)@, old(rng)@, old(v)@.len() as int) == shuffled(v@, rng@, i as int),
            forall|x: usize| #[trigger] v@.contains(x) <==> old(v)@.contains(x),
            old(v)@.no_duplicates() ==> v@.no_duplicates(),
        decreases i,
    {
        i -= 1;
        let j = rng.rand_usize(i + 1);
        let ghost before = v@;
        let a = v[i];
        let b = v[j];
        v.set(i, b);
        v.set(j, a);
        proof {
            assert(v@ == swapped(before, i as int, j as int));
            lemma_swap_members(before, i as int, j as int);
        }
    }
}

/// Exchanging two entries keeps the members and the absence of duplicates.
proof fn lemma_swap_members(s: Seq<usize>, i: int, j: int)
    requires
        0 <= i < s.len(),
        0 <= j < s.len(),
    ensures
        swapped(s, i, j).len() == s.len(),
        forall|x: usize| #[trigger] swapped(s, i, j).contains(x) <==> s.contains(x),
        s.no_duplicates() ==> swapped(s, i, j).no_duplicates(),
{
    let t = swapped(s, i, j);
    let p = |k: int| if k == i { j } else if k == j { i } else { k };
    assert forall|k: int| 0 <= k < s.len() implies #[trigger] t[k] == s[p(k)] by {}
    assert forall|x: usize| #[trigger] t.contains(x) <==> s.contains(x) by {
        if t.contains(x) {
            let k = choose|k: int| 0 <= k < t.len() && t[k] == x;
            assert(s[p(k)] == x);
        }
        if s.contains(x) {
            let k = choose|k: int| 0 <= k < s.len() && s[k] == x;
            assert(t[p(k)] == x);
        }
    }
    if s.no_duplicates() {
        assert forall|a: int, b: int| 0 <= a < t.len() && 0 <= b < t.len() && a != b implies t[a] != t[b] by {
            assert(s[p(a)] != s[p(b)]);
        }
    }
}

/// Indices of the extra algorithms that are switched off, in increasing order.
pub open spec fn disabled_seq(enabled: Seq<bool>, k: int) -> Seq<usize>
    decreases k,
{
    if k <= 0 {
        Seq::empty()
    } else if enabled[k - 1] {
        disabled_seq(enabled, k - 1)
    } else {
        disabled_seq(enabled, k - 1).push((k - 1) as usize)
    }
}

proof fn lemma_disabled_seq(enabled: Seq<bool>, k: int)
    requires
        0 <= k <= enabled.len(),
        enabled.len() <= N_EXTRAS,
    ensures
        forall|x: usize| #[trigger] disabled_seq(enabled, k).contains(x) <==> (x < k && !enabled[x as int]),
        disabled_seq(enabled, k).no_duplicates(),
        forall|a: int| 0 <= a < disabled_seq(enabled, k).len() ==> #[trigger] disabled_seq(enabled, k)[a] < k,
    decreases k,
{
    if k > 0 {
        lemma_disabled_seq(enabled, k - 1);
        let s = disabled_seq(enabled, k - 1);
        crate::seq_facts::lemma_push_contains(s, (k - 1) as usize);
        assert forall|x: usize| #[trigger] disabled_seq(enabled, k).contains(x) <==> (x < k && !enabled[x as int]) by {
            if x < k - 1 {
                assert(s.contains(x) <==> !enabled[x as int]);
            }
        }
        if !enabled[k - 1] {
            let t = s.push((k - 1) as usize);
            assert forall|a: int| 0 <= a < t.len() implies #[trigger] t[a] < k by {
                if a < s.len() {
                    assert(t[a] == s[a]);
                }
            }
            assert forall|a: int, b: int| 0 <= a < t.len() && 0 <= b < t.len() && a != b implies t[a] != t[b] by {
                if a < s.len() && b < s.len() {
                    assert(t[a] == s[a] && t[b] == s[b]);
                } else if a < s.len() {
                    assert(t[a] == s[a]);
                    assert(s[a] < k - 1);
                } else if b < s.len() {
                    assert(t[b] == s[b]);
                    assert(s[b] < k - 1);
                }
            }
        }
    }
}

/// Indices of the switched-off extra algorithms, in increasing order.
pub fn disabled_extras(enabled: &[bool; N_EXTRAS]) -> (r: Vec<usize>)
    ensures
        r@ == disabled_seq(enabled@, N_EXTRAS as int),
        r@.no_duplicates(),
        forall|x: usize| #[trigger] r@.contains(x) <==> (x < N_EXTRAS && !enabled@[x as int]),
{
    let mut r: Vec<usize> = Vec::new();
    let mut k: usize = 0;
    while k < N_EXTRAS
        invariant
            k <= N_EXTRAS,
            r@ == disabled_seq(enabled@, k as int),
        decreases N_EXTRAS - k,
    {
        if !enabled[k] {
            r.push(k);
        }
        k += 1;
    }
    proof {
        lemma_disabled_seq(enabled@, N_EXTRAS as int);
    }
    r
}

/// Whether playing `m` lands on a position whose fingerprint is in `history`.
pub fn leads_to_repetition(board: &Board, m: &Move, history: &[u64]) -> (r: bool)
    requires
        board@.indices_ok(),
        board@.can_apply(*m),
    ensures
        r == history@.contains(board@.applied(*m).fingerprint()),
{
    let mut b = board.copy();
    b.apply_move(m);
    let h = b.position_hash();
    let mut i: usize = 0;
    while i < history.len()
        invariant
            i <= history@.len(),
            h == board@.applied(*m).fingerprint(),
            forall|k: int| 0 <= k < i ==> history@[k] != h,
        decreases history.len() - i,
    {
        if history[i] == h {
            return true;
        }
        i += 1;
    }
    false
}

/// `enabled` with the extras `order[0]`, ..., `order[k - 1]` switched on.
pub open spec fn switched_on(enabled: Seq<bool>, order: Seq<usize>, k: int) -> Seq<bool>
    decreases k,
{
    if k <= 0 {
        enabled
    } else {
        switched_on(enabled, order, k - 1).update(order[k - 1] as int, true)
    }
}

/// What the loop watchdog asks of its caller next.
pub enum WatchAction {
    /// Keep the candidate move just evaluated.
    Accept,
    /// Choose a move again with these extras switched on and report whether
    /// it avoids a repetition.
    TryConfig([bool; N_EXTRAS]),
    /// Every switched-off extra has been tried: fall back to the best legal
    /// move that does not repeat.
    FallBack,
}

/// The loop watchdog: the switched-off extras in the order they will be
/// tried, how many have been switched on so far, and the current switches.
pub struct Watchdog {
    order: Vec<usize>,
    next: usize,
    enabled: [bool; N_EXTRAS],
}

impl View for Watchdog {
    type V = (Seq<usize>, int, Seq<bool>);

    closed spec fn view(&self) -> (Seq<usize>, int, Seq<bool>) {
        (self.order@, self.next as int, self.enabled@)
    }
}

impl Watchdog {
    /// The order names extras that exist, and the count of those tried
    /// stays within it.
    pub open spec fn wf(self) -> bool {
        &&& 0 <= self@.1 <= self@.0.len()
        &&& forall|k: int| 0 <= k < self@.0.len() ==> #[trigger] self@.0[k] < N_EXTRAS
    }

    /// Start watching from the switches `enabled`: the switched-off extras,
    /// shuffled with the generator, none tried yet.
    pub fn start(enabled: &[bool; N_EXTRAS], rng: &mut Rng) -> (w: Watchdog)
        ensures
            w.wf(),
            (w@.0, final(rng)@) == shuffled(
                disabled_seq(enabled@, N_EXTRAS as int),
                old(rng)@,
                disabled_seq(enabled@, N_EXTRAS as int).len() as int,
            ),
            w@.1 == 0,
            w@.2 == enabled@,
            w@.0.no_duplicates(),
            forall|x: usize| #[trigger] w@.0.contains(x) <==> (x < N_EXTRAS && !enabled@[x as int]),
    {
        let mut order = disabled_extras(enabled);
        shuffle(&mut order, rng);
        proof {
            assert forall|k: int| 0 <= k < order@.len() implies #[trigger] order@[k] < N_EXTRAS by {
                assert(order@.contains(order@[k]));
            }
        }
        Watchdog { order, next: 0, enabled: *enabled }
    }

    /// One decision of the watchdog, told whether the last candidate move
    /// avoids a repetition: keep it if so; otherwise switch on the next
    /// untried extra and ask for a move under the new switches; once every
    /// extra has been tried, fall back.
    pub fn step(&mut self, candidate_ok: bool) -> (a: WatchAction)
        requires
            old(self).wf(),
        ensures
            final(self).wf(),
            candidate_ok ==> a is Accept && *final(self) == *old(self),
            !candidate_ok && old(self)@.1 < old(self)@.0.len() ==> {
                &&& final(self)@.0 == old(self)@.0
                &&& final(self)@.1 == old(self)@.1 + 1
                &&& final(self)@.2 == old(self)@.2.update(old(self)@.0[old(self)@.1] as int, true)
                &&& a matches WatchAction::TryConfig(e) && e@ == final(self)@.2
            },
            !candidate_ok && old(self)@.1 >= old(self)@.0.len() ==> a is FallBack && *final(self) == *old(self),
    {
        if candidate_ok {
            WatchAction::Accept
        } else if self.next < self.order.len() {
            let idx = self.order[self.next];
            self.enabled[idx] = true;
            self.next = self.next + 1;
            WatchAction::TryConfig(self.enabled)
        } else {
            WatchAction::FallBack
        }
    }
}

/// The watchdog's switches after `k` failed candidates are the starting
/// switches with the first `k` extras of its order switched on: an extra
/// once on stays on, and once the order is used up (when it holds every
/// switched-off extra) every extra is on.
pub proof fn lemma_watchdog_switches(enabled: Seq<bool>, order: Seq<usize>, k: int)
    requires
        enabled.len() == N_EXTRAS,
        0 <= k <= order.len(),
        forall|j: int| 0 <= j < order.len() ==> #[trigger] order[j] < N_EXTRAS,
    ensures
        switched_on(enabled, order, k).len() == N_EXTRAS,
        forall|i: int| 0 <= i < N_EXTRAS ==> #[trigger] switched_on(enabled, order, k)[i]
            == (enabled[i] || order.take(k).contains(i as usize)),
        k == order.len() && (forall|x: usize| x < N_EXTRAS && !enabled[x as int] ==> order.contains(x))
            ==> forall|i: int| 0 <= i < N_EXTRAS ==> #[trigger] switched_on(enabled, order, k)[i],
    decreases k,
{
    if k > 0 {
        lemma_watchdog_switches(enabled, order, k - 1);
        let prev = switched_on(enabled, order, k - 1);
        assert forall|i: int| 0 <= i < N_EXTRAS implies #[trigger] switched_on(enabled, order, k)[i]
            == (enabled[i] || order.take(k).contains(i as usize)) by {
            assert(order.take(k) == order.take(k - 1).push(order[k - 1]));
            crate::seq_facts::lemma_push_contains(order.take(k - 1), order[k - 1]);
        }
    }
    if k == order.len() && (forall|x: usize| x < N_EXTRAS && !enabled[x as int] ==> order.contains(x)) {
        assert(order.take(k) == order);
        assert forall|i: int| 0 <= i < N_EXTRAS implies #[trigger] switched_on(enabled, order, k)[i] by {
            if !enabled[i] {
                assert(order.contains(i as usize));
            }
        }
    }
}

} // verus!
