use vstd::arithmetic::div_mod::{lemma_add_mod_noop_right, lemma_mod_multiples_vanish, lemma_small_mod};
use vstd::arithmetic::power2::{
    lemma2_to64, lemma_pow2_adds, lemma_pow2_pos, lemma_pow2_strictly_increases, pow2,
};
use vstd::bits::{lemma_usize_low_bits_mask_is_mod, low_bits_mask};
use vstd::layout::unsigned_int_max_values;
use vstd::prelude::*;

verus! {

/// `n` is `2^k` for some `k`.
pub open spec fn is_power_of_two(n: nat) -> bool {
    exists|k: nat| pow2(k) == n
}

/// Whether `n` is an exact power of two.
pub fn power_of_two(n: usize) -> (r: bool)
    ensures
        r == is_power_of_two(n as nat),
{
    if n == 0 {
        proof {
            assert forall|k: nat| pow2(k) != 0 by {
                lemma_pow2_pos(k);
            }
        }
        return false;
    }
    let mut p: usize = 1;
    let ghost mut e: nat = 0;
    proof {
        lemma2_to64();
    }
    while p < n && p <= usize::MAX / 2
        invariant
            p as nat == pow2(e),
            0 < p,
            0 < n,
            forall|k: nat| k < e ==> pow2(k) < n,
        decreases usize::MAX - p,
    {
        proof {
            assert(pow2(e + 1) == pow2(e) * pow2(1)) by {
                lemma_pow2_adds(e, 1);
            }
            lemma2_to64();
        }
        p = p * 2;
        proof { e = e + 1; }
    }
    if p == n {
        return true;
    }
    proof {
        assert forall|k: nat| pow2(k) != n by {
            if k < e {
            } else if k == e {
            } else if p >= n {
                lemma_pow2_strictly_increases(e, k);
            } else {
                lemma_pow2_strictly_increases(e, k);
                assert(pow2(e + 1) == pow2(e) * pow2(1)) by {
                    lemma_pow2_adds(e, 1);
                }
                lemma2_to64();
                if k > e + 1 {
                    lemma_pow2_strictly_increases(e + 1, k);
                }
            }
        }
    }
    false
}

/// The number of distinct values of a `usize` index; index arithmetic wraps
/// modulo this.
pub open spec fn index_modulus() -> int {
    usize::MAX as int + 1
}

/// How far `head` is ahead of `tail` on the wrapping `usize` circle.
pub open spec fn wrapping_distance(head: usize, tail: usize) -> nat {
    if head >= tail {
        (head - tail) as nat
    } else {
        (head + index_modulus() - tail) as nat
    }
}

/// Storage position of logical position `k`, counted from `start`, in a
/// buffer of `cap` cells.
pub open spec fn cell_of(start: int, k: int, cap: int) -> int {
    (start + k) % cap
}

/// A fixed-capacity FIFO queue of owned byte packets, written by one
/// producer and read by one consumer.
///
/// `head` counts the packets ever pushed and `tail` those ever popped, both
/// wrapping on overflow; their wrapping distance is the number of packets
/// held. The packet at logical position `k` lives in cell
/// `(tail + k) mod capacity`, found as `(tail + k) & (capacity - 1)`.
pub struct SpscRing {
    buf: Vec<Option<Vec<u8>>>,
    cap_mask: usize,
    head: usize,
    tail: usize,
    log_cap: Ghost<nat>,
}

impl View for SpscRing {
    type V = Seq<Seq<u8>>;

    /// The packets held, oldest first.
    closed spec fn view(&self) -> Seq<Seq<u8>> {
        Seq::new(
            self.len_spec(),
            |k: int| self.buf@[cell_of(self.tail as int % self.cap_int(), k, self.cap_int())]->Some_0@,
        )
    }
}

impl SpscRing {
    spec fn cap_int(&self) -> int {
        self.buf@.len() as int
    }

    spec fn len_spec(&self) -> nat {
        wrapping_distance(self.head, self.tail)
    }

    /// The fixed number of cells.
    pub closed spec fn capacity_spec(&self) -> nat {
        self.buf@.len()
    }

    /// Every cell that holds a packet is a live logical position, and no
    /// other cell holds one.
    pub closed spec fn wf(&self) -> bool {
        &&& self.log_cap@ < usize::BITS
        &&& self.buf@.len() == pow2(self.log_cap@)
        &&& self.buf@.len() <= usize::MAX
        &&& self.cap_mask as nat == low_bits_mask(self.log_cap@)
        &&& self.len_spec() <= self.buf@.len()
        &&& forall|k: int|
            0 <= k < self.cap_int() ==> (#[trigger] self.buf@[cell_of(
                self.tail as int % self.cap_int(),
                k,
                self.cap_int(),
            )]).is_some() == (k < self.len_spec())
    }

    /// Creates an empty ring of `cap` cells; `cap` must be a power of two.
    pub fn new(cap: usize) -> (r: Self)
        requires
            is_power_of_two(cap as nat),
        ensures
            r.wf(),
            r@ == Seq::<Seq<u8>>::empty(),
            r.capacity_spec() == cap,
    {
        let ghost k = choose|k: nat| pow2(k) == cap as nat;
        proof {
            lemma_log_below_bits(k);
            lemma_pow2_pos(k);
        }
        let mut v: Vec<Option<Vec<u8>>> = Vec::with_capacity(cap);
        let mut i: usize = 0;
        while i < cap
            invariant
                i <= cap,
                v@.len() == i,
                forall|j: int| 0 <= j < i ==> (#[trigger] v@[j]).is_none(),
            decreases cap - i,
        {
            v.push(None);
            i = i + 1;
        }
        let r = SpscRing { buf: v, cap_mask: cap - 1, head: 0, tail: 0, log_cap: Ghost(k) };
        proof {
            lemma_pow2_pos(k);
            assert forall|j: int| 0 <= j < r.cap_int() implies (#[trigger] r.buf@[cell_of(
                r.tail as int % r.cap_int(),
                j,
                r.cap_int(),
            )]).is_some() == (j < r.len_spec()) by {
                lemma_small_mod(j as nat, cap as nat);
            }
            assert(r@ =~= Seq::<Seq<u8>>::empty());
        }
        r
    }

    /// Creates an empty ring of `cap` cells, or returns `None` when `cap` is
    /// not a power of two.
    pub fn try_new(cap: usize) -> (r: Option<Self>)
        ensures
            r is Some <==> is_power_of_two(cap as nat),
            r is Some ==> {
                &&& r->Some_0.wf()
                &&& r->Some_0@ == Seq::<Seq<u8>>::empty()
                &&& r->Some_0.capacity_spec() == cap
            },
    {
        if power_of_two(cap) {
            Some(SpscRing::new(cap))
        } else {
            None
        }
    }

    /// The fixed number of cells.
    pub fn capacity(&self) -> (r: usize)
        requires
            self.wf(),
        ensures
            r == self.capacity_spec(),
    {
        self.buf.len()
    }

    /// The number of packets held.
    pub fn len(&self) -> (r: usize)
        requires
            self.wf(),
        ensures
            r == self@.len(),
    {
        self.head.wrapping_sub(self.tail)
    }

    /// Whether no packet is held.
    pub fn is_empty(&self) -> (r: bool)
        requires
            self.wf(),
        ensures
            r == (self@.len() == 0),
    {
        self.head == self.tail
    }

    /// Whether every cell holds a packet, so that a push would be refused.
    pub fn is_full(&self) -> (r: bool)
        requires
            self.wf(),
        ensures
            r == (self@.len() == self.capacity_spec()),
    {
        self.head.wrapping_sub(self.tail) == self.buf.len()
    }

    /// Appends `payload` at the back unless the ring is full; a full ring
    /// hands `payload` back untouched and stays as it was.
    pub fn try_push(&mut self, payload: Vec<u8>) -> (r: Result<(), Vec<u8>>)
        requires
            old(self).wf(),
        ensures
            final(self).wf(),
            final(self).capacity_spec() == old(self).capacity_spec(),
            final(self)@ == push_model(old(self)@, old(self).capacity_spec(), payload@),
            r == if old(self)@.len() < old(self).capacity_spec() {
                Ok::<(), Vec<u8>>(())
            } else {
                Err::<(), Vec<u8>>(payload)
            },
    {
        let head = self.head;
        let tail = self.tail;
        if head.wrapping_sub(tail) == self.buf.len() {
            return Err(payload);
        }
        let ghost pre = *self;
        let ghost cap = self.cap_int();
        let ghost start = tail as int % cap;
        let ghost n = self.len_spec() as int;
        let ghost item = payload@;
        let idx = head & self.cap_mask;
        proof {
            lemma_usize_low_bits_mask_is_mod(head, self.log_cap@);
            lemma_wrap_cell(tail as int, n, self.log_cap@);
            lemma_cells_distinct(start, n, 0, cap);
            assert(idx as int == cell_of(start, n, cap));
        }
        self.buf.set(idx, Some(payload));
        self.head = head.wrapping_add(1);
        proof {
            assert(self.len_spec() == n + 1);
            assert forall|k: int| 0 <= k < cap implies (#[trigger] self.buf@[cell_of(
                start,
                k,
                cap,
            )]).is_some() == (k < self.len_spec()) by {
                lemma_cells_distinct(start, k, n, cap);
                assert(pre.buf@[cell_of(start, k, cap)].is_some() == (k < n));
            }
            assert forall|k: int| 0 <= k < n + 1 implies #[trigger] self@[k] == pre@.push(item)[k] by {
                lemma_cells_distinct(start, k, n, cap);
            }
            assert(self@ =~= pre@.push(item));
        }
        Ok(())
    }

    /// Removes and returns the oldest packet, or returns `None` when the ring
    /// is empty.
    pub fn try_pop(&mut self) -> (r: Option<Vec<u8>>)
        requires
            old(self).wf(),
        ensures
            final(self).wf(),
            final(self).capacity_spec() == old(self).capacity_spec(),
            final(self)@ == pop_model(old(self)@),
            r is None <==> old(self)@.len() == 0,
            r is Some ==> r->Some_0@ == old(self)@[0],
    {
        let tail = self.tail;
        let head = self.head;
        if head == tail {
            return None;
        }
        let ghost pre = *self;
        let ghost cap = self.cap_int();
        let ghost start = tail as int % cap;
        let ghost n = self.len_spec() as int;
        let idx = tail & self.cap_mask;
        proof {
            lemma_usize_low_bits_mask_is_mod(tail, self.log_cap@);
            lemma_pow2_pos(self.log_cap@);
            lemma_small_mod(start as nat, cap as nat);
            lemma_cells_distinct(start, 0, 0, cap);
            assert(idx as int == cell_of(start, 0, cap));
            assert(pre.buf@[cell_of(start, 0, cap)].is_some());
        }
        let item = self.buf[idx].take();
        self.tail = tail.wrapping_add(1);
        proof {
            let s2 = self.tail as int % cap;
            lemma_wrap_cell(tail as int, 1, self.log_cap@);
            assert(s2 == cell_of(start, 1, cap));
            assert(self.len_spec() == n - 1);
            assert forall|k: int| 0 <= k < cap implies cell_of(s2, k, cap) == cell_of(
                start,
                k + 1,
                cap,
            ) by {
                lemma_add_mod_noop_right(k, start + 1, cap);
            }
            assert forall|k: int| 0 <= k < cap implies (#[trigger] self.buf@[cell_of(
                s2,
                k,
                cap,
            )]).is_some() == (k < self.len_spec()) by {
                if k + 1 < cap {
                    lemma_cells_distinct(start, k + 1, 0, cap);
                    assert(pre.buf@[cell_of(start, k + 1, cap)].is_some() == (k + 1 < n));
                } else {
                    lemma_mod_multiples_vanish(1, start, cap);
                    lemma_small_mod(start as nat, cap as nat);
                }
            }
            assert forall|k: int| 0 <= k < n - 1 implies #[trigger] self@[k] == pre@.drop_first()[k] by {
                lemma_cells_distinct(start, k + 1, 0, cap);
            }
            assert(self@ =~= pre@.drop_first());
        }
        item
    }
}

/// Offering `x` to a queue that holds `q` and has room for `cap` packets:
/// `x` joins the back if there is room, and nothing changes otherwise.
pub open spec fn push_model(q: Seq<Seq<u8>>, cap: nat, x: Seq<u8>) -> Seq<Seq<u8>> {
    if q.len() < cap {
        q.push(x)
    } else {
        q
    }
}

/// Taking from a queue that holds `q`: the front leaves if there is one.
pub open spec fn pop_model(q: Seq<Seq<u8>>) -> Seq<Seq<u8>> {
    if q.len() > 0 {
        q.drop_first()
    } else {
        q
    }
}

/// For `x` below `2 * cap`, `x mod cap` is `x` or `x - cap`.
proof fn lemma_reduce_once(x: int, cap: int)
    requires
        0 < cap,
        0 <= x < 2 * cap,
    ensures
        x % cap == if x < cap {
            x
        } else {
            x - cap
        },
{
    if x < cap {
        lemma_small_mod(x as nat, cap as nat);
    } else {
        lemma_mod_multiples_vanish(1, x - cap, cap);
        lemma_small_mod((x - cap) as nat, cap as nat);
    }
}

/// Distinct logical positions below `cap` occupy distinct cells, all in range.
proof fn lemma_cells_distinct(start: int, a: int, b: int, cap: int)
    requires
        0 <= start < cap,
        0 <= a < cap,
        0 <= b < cap,
    ensures
        0 <= cell_of(start, a, cap) < cap,
        a != b ==> cell_of(start, a, cap) != cell_of(start, b, cap),
{
    lemma_reduce_once(start + a, cap);
    lemma_reduce_once(start + b, cap);
}

/// A capacity of `2^log` divides the index modulus, so a wrapped index and
/// the unwrapped one name the same cell.
proof fn lemma_wrap_cell(x: int, d: int, log: nat)
    requires
        log < usize::BITS,
        0 <= x,
        0 <= d,
    ensures
        pow2(log) > 0,
        (x + d - index_modulus()) % (pow2(log) as int) == cell_of(
            x % (pow2(log) as int),
            d,
            pow2(log) as int,
        ),
        (x + d) % (pow2(log) as int) == cell_of(x % (pow2(log) as int), d, pow2(log) as int),
{
    let cap = pow2(log) as int;
    let q = pow2((usize::BITS - log) as nat) as int;
    lemma_pow2_pos(log);
    unsigned_int_max_values();
    lemma_pow2_adds(log, (usize::BITS - log) as nat);
    assert(index_modulus() == cap * q);
    assert(cap * (-q) == -(cap * q)) by (nonlinear_arith);
    lemma_mod_multiples_vanish(-q, x + d, cap);
    lemma_add_mod_noop_right(d, x, cap);
}

/// A power of two that fits in a `usize` has an exponent below its width.
proof fn lemma_log_below_bits(k: nat)
    requires
        pow2(k) <= usize::MAX,
    ensures
        k < usize::BITS,
{
    unsigned_int_max_values();
    if k >= usize::BITS {
        if k > usize::BITS {
            lemma_pow2_strictly_increases(usize::BITS as nat, k);
        }
    }
}

} // verus!
