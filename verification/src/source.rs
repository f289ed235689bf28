//! Sources of random values that keep a record of every value they hand out,
//! and the partial Fisher-Yates shuffle that turns drawn indices into a
//! choice of positions.

use vstd::prelude::*;
use crate::parameters::PUBKEY_BYTES;
use crate::primitives::{
    os_fill_bytes, os_gen_range, os_gen_range_u8, os_gen_u8, os_rng, random_nonce, thread_fill_bytes,
    thread_gen_range, thread_gen_range_u8, thread_gen_u8, thread_rng,
};

verus! {

/// Bytes as the numbers they hold.
pub open spec fn byte_values(s: Seq<u8>) -> Seq<int> {
    Seq::new(s.len(), |k: int| s[k] as int)
}

/// Numbers (each below 256) as bytes.
pub open spec fn values_bytes(s: Seq<int>) -> Seq<u8> {
    Seq::new(s.len(), |k: int| s[k] as u8)
}

/// A source of random values. Nothing is promised of a drawn value beyond
/// its range, but every value drawn is recorded, in order, in `drawn`.
pub trait RandomSource {
    /// Every value handed out so far, in the order it was drawn.
    spec fn drawn(&self) -> Seq<int>;

    /// A value drawn from `lo..hi`.
    fn gen_below(&mut self, lo: usize, hi: usize) -> (r: usize)
        requires
            lo < hi,
        ensures
            lo <= r < hi,
            final(self).drawn() == old(self).drawn().push(r as int),
    ;

    /// A byte drawn from `lo..hi`.
    fn gen_byte_below(&mut self, lo: u8, hi: u8) -> (r: u8)
        requires
            lo < hi,
        ensures
            lo <= r < hi,
            final(self).drawn() == old(self).drawn().push(r as int),
    ;

    /// An arbitrary random byte.
    fn gen_byte(&mut self) -> (r: u8)
        ensures
            final(self).drawn() == old(self).drawn().push(r as int),
    ;

    /// Overwrites every byte of a packed ring element with random bytes.
    fn fill_packed(&mut self, buf: &mut [u8; PUBKEY_BYTES])
        ensures
            final(self).drawn() == old(self).drawn() + byte_values(final(buf)@),
    ;
}

/// The thread-local generator of `rand`, with the record of its draws.
pub struct ThreadSource {
    rng: rand::rngs::ThreadRng,
    log: Ghost<Seq<int>>,
}

impl ThreadSource {
    /// A fresh source over the thread-local generator; nothing drawn yet.
    pub fn new() -> (s: ThreadSource)
        ensures
            s.drawn() == Seq::<int>::empty(),
    {
        ThreadSource { rng: thread_rng(), log: Ghost(Seq::empty()) }
    }
}

impl RandomSource for ThreadSource {
    closed spec fn drawn(&self) -> Seq<int> {
        self.log@
    }

    fn gen_below(&mut self, lo: usize, hi: usize) -> (r: usize) {
        let r = thread_gen_range(&mut self.rng, lo, hi);
        self.log = Ghost(self.log@.push(r as int));
        r
    }

    fn gen_byte_below(&mut self, lo: u8, hi: u8) -> (r: u8) {
        let r = thread_gen_range_u8(&mut self.rng, lo, hi);
        self.log = Ghost(self.log@.push(r as int));
        r
    }

    fn gen_byte(&mut self) -> (r: u8) {
        let r = thread_gen_u8(&mut self.rng);
        self.log = Ghost(self.log@.push(r as int));
        r
    }

    fn fill_packed(&mut self, buf: &mut [u8; PUBKEY_BYTES]) {
        thread_fill_bytes(&mut self.rng, buf);
        self.log = Ghost(self.log@ + byte_values(buf@));
    }
}

/// The operating-system generator of `rand`, with the record of its draws.
pub struct OsSource {
    rng: rand::rngs::OsRng,
    log: Ghost<Seq<int>>,
}

impl OsSource {
    /// A fresh source over the operating-system generator; nothing drawn yet.
    pub fn new() -> (s: OsSource)
        ensures
            s.drawn() == Seq::<int>::empty(),
    {
        OsSource { rng: os_rng(), log: Ghost(Seq::empty()) }
    }

    /// A 96-bit AES-GCM nonce drawn from the operating-system generator.
    pub fn gen_nonce(&mut self) -> (r: [u8; 12])
        ensures
            final(self).drawn() == old(self).drawn() + byte_values(r@),
    {
        let r = random_nonce(&mut self.rng);
        self.log = Ghost(self.log@ + byte_values(r@));
        r
    }
}

impl RandomSource for OsSource {
    closed spec fn drawn(&self) -> Seq<int> {
        self.log@
    }

    fn gen_below(&mut self, lo: usize, hi: usize) -> (r: usize) {
        let r = os_gen_range(&mut self.rng, lo, hi);
        self.log = Ghost(self.log@.push(r as int));
        r
    }

    fn gen_byte_below(&mut self, lo: u8, hi: u8) -> (r: u8) {
        let r = os_gen_range_u8(&mut self.rng, lo, hi);
        self.log = Ghost(self.log@.push(r as int));
        r
    }

    fn gen_byte(&mut self) -> (r: u8) {
        let r = os_gen_u8(&mut self.rng);
        self.log = Ghost(self.log@.push(r as int));
        r
    }

    fn fill_packed(&mut self, buf: &mut [u8; PUBKEY_BYTES]) {
        os_fill_bytes(&mut self.rng, buf);
        self.log = Ghost(self.log@ + byte_values(buf@));
    }
}

/// The arrangement of `0..n` after the first `t` steps of a partial
/// Fisher-Yates shuffle whose step `i` swaps the places `i` and `js[i]`.
pub open spec fn shuffled(n: int, js: Seq<int>, t: int) -> Seq<int>
    decreases t,
{
    if t <= 0 {
        Seq::new(n as nat, |u: int| u)
    } else {
        let p = shuffled(n, js, t - 1);
        let i = t - 1;
        let j = js[i];
        p.update(i, p[j]).update(j, p[i])
    }
}

/// The indices a shuffle of `0..n` with `k` steps draws: step `i` draws
/// from `i..n`.
pub open spec fn shuffle_draws_valid(n: int, js: Seq<int>, k: int) -> bool {
    js.len() == k && forall|i: int| 0 <= i < k ==> i <= #[trigger] js[i] < n
}

/// The positions among `0..n` that the first `k` places hold after `k`
/// steps of the shuffle with the drawn indices `js`.
pub open spec fn shuffle_choice(n: int, js: Seq<int>, k: int) -> Seq<bool> {
    Seq::new(n as nat, |x: int| exists|u: int| 0 <= u < k && shuffled(n, js, k)[u] == x)
}

/// `after` continues the record `before`.
pub open spec fn extends(before: Seq<int>, after: Seq<int>) -> bool {
    before.len() <= after.len() && after.take(before.len() as int) == before
}

/// The values drawn after the record `before`, up to the record `after`.
pub open spec fn draws_since(before: Seq<int>, after: Seq<int>) -> Seq<int> {
    after.skip(before.len() as int)
}

/// A record that continues another is that record followed by the new draws.
pub proof fn lemma_extends(before: Seq<int>, after: Seq<int>)
    requires
        extends(before, after),
    ensures
        after == before + draws_since(before, after),
{
    assert(after =~= before + draws_since(before, after));
}

/// The shuffle has `n` places, and only the drawn indices before step `t` matter.
pub proof fn lemma_shuffled_facts(n: int, js: Seq<int>, x: int, t: int)
    requires
        0 <= n,
        0 <= t <= js.len(),
        t <= n,
        forall|i: int| 0 <= i < t ==> 0 <= #[trigger] js[i] < n,
    ensures
        shuffled(n, js, t).len() == n,
        shuffled(n, js.push(x), t) == shuffled(n, js, t),
    decreases t,
{
    if t > 0 {
        lemma_shuffled_facts(n, js, x, t - 1);
        let p = shuffled(n, js, t - 1);
        let j = js[t - 1];
        assert(0 <= j < n);
        assert(js.push(x)[t - 1] == j);
        assert(shuffled(n, js, t) == p.update(t - 1, p[j]).update(j, p[t - 1]));
    } else {
        assert(shuffled(n, js, t) == Seq::new(n as nat, |u: int| u));
    }
}

} // verus!
