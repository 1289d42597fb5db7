//! Robin Hood open addressing on power-of-two tables.
//!
//! A table is a sequence of slots; one distinguished value marks an empty
//! slot.  Every stored value has a home slot (its hash modulo the table
//! length), and is stored at some distance after its home.  The shared
//! invariant of every table in this crate is `rh_local`: walking forward,
//! a stored value is either at home, or follows an occupied slot whose
//! distance is at least one less than its own.
use vstd::prelude::*;
use vstd::arithmetic::power2::{pow2, lemma_pow2_pos, lemma_pow2_adds};
use vstd::arithmetic::div_mod::{lemma_mod_multiples_vanish, lemma_mod_bound, lemma_sub_mod_noop, lemma_small_mod};
use vstd::bits::lemma_usize_low_bits_mask_is_mod;

verus! {

/// A way of hashing values of type `T` to a `usize`.
pub trait KeyHash<T> {
    spec fn spec_hash(x: T) -> usize;

    fn hash(x: T) -> (r: usize)
        ensures
            r == Self::spec_hash(x),
    ;
}

/// The length of a table: a power of two that a `usize` can hold.
pub open spec fn is_table_len(n: int) -> bool {
    exists|p: nat| p < usize::BITS && n == pow2(p)
}

/// `a` taken back into `[0, n)`, for `a` in `[0, 2n)`.
pub open spec fn wrap(a: int, n: int) -> int {
    if a < n {
        a
    } else {
        a - n
    }
}

/// How far slot `i` lies after slot `h`, going forward around a table of length `n`.
pub open spec fn pdist(i: int, h: int, n: int) -> int {
    if i >= h {
        i - h
    } else {
        i - h + n
    }
}

/// The slot after slot `i`.
pub open spec fn nxt(i: int, n: int) -> int {
    if i + 1 < n {
        i + 1
    } else {
        0
    }
}

/// The slot before slot `i`.
pub open spec fn prv(i: int, n: int) -> int {
    if i == 0 {
        n - 1
    } else {
        i - 1
    }
}

pub proof fn lemma_mask_is_mod(x: usize, n: usize)
    requires
        is_table_len(n as int),
    ensures
        n > 0,
        x & ((n - 1) as usize) == x % n,
{
    let p = choose|p: nat| p < usize::BITS && n == pow2(p);
    lemma_pow2_pos(p);
    lemma_usize_low_bits_mask_is_mod(x, p);
}

/// `n` divides `usize::MAX + 1`.
pub proof fn lemma_table_len_divides_word(n: int) -> (k: int)
    requires
        is_table_len(n),
    ensures
        n > 0,
        k >= 1,
        k * n == usize::MAX as int + 1,
{
    let p = choose|p: nat| p < usize::BITS && n == pow2(p);
    lemma_pow2_pos(p);
    vstd::layout::unsigned_int_max_values();
    lemma_pow2_adds(p, (usize::BITS - p) as nat);
    let k = pow2((usize::BITS - p) as nat) as int;
    assert(k * n == usize::MAX as int + 1) by (nonlinear_arith)
        requires
            k == pow2((usize::BITS - p) as nat),
            n == pow2(p),
            pow2(p) * pow2((usize::BITS - p) as nat) == pow2(usize::BITS as nat),
            usize::MAX as int + 1 == pow2(usize::BITS as nat),
    ;
    lemma_pow2_pos((usize::BITS - p) as nat);
    k
}

/// Adding with wraparound and masking lands `d` slots after the home of `h`.
pub proof fn lemma_wrapping_add_mask(h: usize, d: usize, n: usize)
    requires
        is_table_len(n as int),
        d <= n,
    ensures
        (h.wrapping_add(d) & ((n - 1) as usize)) as int == wrap(h as int % n as int + d, n as int),
{
    let k = lemma_table_len_divides_word(n as int);
    lemma_mask_is_mod(h.wrapping_add(d), n);
    let w = h.wrapping_add(d) as int;
    assert(w == h + d || w == h + d - k * n);
    if w == h + d - k * n {
        lemma_mod_multiples_vanish(-k, h + d, n as int);
        assert((n as int) * (-k) + (h + d) == w) by (nonlinear_arith)
            requires w == h + d - k * n;
    }
    assert(w % (n as int) == (h + d) % (n as int));
    lemma_mod_bound(h as int, n as int);
    vstd::arithmetic::div_mod::lemma_fundamental_div_mod(h as int, n as int);
    lemma_mod_multiples_vanish(h as int / n as int, h as int % n as int + d, n as int);
    assert((n as int) * (h as int / n as int) + (h as int % n as int + d) == h + d);
    let a = h as int % n as int + d;
    if a >= n {
        lemma_mod_multiples_vanish(-1, a, n as int);
        lemma_small_mod((a - n) as nat, n as nat);
    } else {
        lemma_small_mod(a as nat, n as nat);
    }
}

/// Subtracting with wraparound and masking gives the forward distance
/// between the slots of `a` and `b`.
pub proof fn lemma_wrapping_sub_mask(a: usize, b: usize, n: usize)
    requires
        is_table_len(n as int),
    ensures
        (a.wrapping_sub(b) & ((n - 1) as usize)) as int == pdist(a as int % n as int, b as int % n as int, n as int),
{
    let k = lemma_table_len_divides_word(n as int);
    lemma_mask_is_mod(a.wrapping_sub(b), n);
    let w = a.wrapping_sub(b) as int;
    assert(w == a - b || w == a - b + k * n);
    if w == a - b + k * n {
        lemma_mod_multiples_vanish(k, a - b, n as int);
        assert((n as int) * k + (a - b) == w) by (nonlinear_arith)
            requires w == a - b + k * n;
    }
    assert(w % (n as int) == (a - b) % (n as int));
    lemma_sub_mod_noop(a as int, b as int, n as int);
    lemma_mod_bound(a as int, n as int);
    lemma_mod_bound(b as int, n as int);
    let c = a as int % n as int - b as int % n as int;
    if c >= 0 {
        lemma_small_mod(c as nat, n as nat);
    } else {
        lemma_mod_multiples_vanish(1, c, n as int);
        lemma_small_mod((c + n) as nat, n as nat);
    }
}


/// The home slot of `x` in a table of length `n`.
pub open spec fn home<T, H: KeyHash<T>>(x: T, n: int) -> int {
    H::spec_hash(x) as int % n
}

/// How far the value in slot `i` is stored after its home slot.
pub open spec fn disp<T, H: KeyHash<T>>(s: Seq<T>, i: int) -> int {
    pdist(i, home::<T, H>(s[i], s.len() as int), s.len() as int)
}

/// The value in slot `j`, if any, is at home or directly follows an
/// occupied slot that is at most one step less displaced.
pub open spec fn rh_at<T, H: KeyHash<T>>(s: Seq<T>, inv: T, j: int) -> bool {
    s[j] != inv ==> (disp::<T, H>(s, j) == 0 || (s[prv(j, s.len() as int)] != inv && disp::<T, H>(
        s,
        j,
    ) <= disp::<T, H>(s, prv(j, s.len() as int)) + 1))
}

pub open spec fn rh_local<T, H: KeyHash<T>>(s: Seq<T>, inv: T) -> bool {
    forall|j: int| 0 <= j < s.len() ==> #[trigger] rh_at::<T, H>(s, inv, j)
}

/// No value is stored twice.
pub open spec fn no_dup<T>(s: Seq<T>, inv: T) -> bool {
    forall|i: int, j: int|
        0 <= i < s.len() && 0 <= j < s.len() && i != j && s[i] != inv ==> #[trigger] s[i]
            != #[trigger] s[j]
}

/// A well-formed Robin Hood table.
pub open spec fn table_wf<T, H: KeyHash<T>>(s: Seq<T>, inv: T) -> bool {
    &&& is_table_len(s.len() as int)
    &&& rh_local::<T, H>(s, inv)
    &&& no_dup(s, inv)
}

/// The values stored in a table.
pub open spec fn contents<T>(s: Seq<T>, inv: T) -> Set<T> {
    Set::new(|x: T| x != inv && s.contains(x))
}

/// The slot `m` steps after the home of `x`.
pub open spec fn probe_slot<T, H: KeyHash<T>>(x: T, m: int, n: int) -> int {
    wrap(home::<T, H>(x, n) + m, n)
}

/// A search for `x` walks on past the slot `m` steps after its home.
pub open spec fn passes<T, H: KeyHash<T>>(s: Seq<T>, inv: T, x: T, m: int) -> bool {
    let j = probe_slot::<T, H>(x, m, s.len() as int);
    &&& s[j] != inv
    &&& s[j] != x
    &&& disp::<T, H>(s, j) >= m
}

/// A search for `x` walks on past the first `d` slots from its home.
pub open spec fn probe_clear<T, H: KeyHash<T>>(s: Seq<T>, inv: T, x: T, d: int) -> bool {
    forall|m: int| 0 <= m < d ==> #[trigger] passes::<T, H>(s, inv, x, m)
}

pub proof fn lemma_home_bound<T, H: KeyHash<T>>(x: T, n: int)
    requires
        n > 0,
    ensures
        0 <= home::<T, H>(x, n) < n,
{
    lemma_mod_bound(H::spec_hash(x) as int, n);
}

/// Every slot lies `pdist` steps after any home.
pub proof fn lemma_probe_slot_of<T, H: KeyHash<T>>(x: T, j: int, n: int)
    requires
        n > 0,
        0 <= j < n,
    ensures
        0 <= pdist(j, home::<T, H>(x, n), n) < n,
        probe_slot::<T, H>(x, pdist(j, home::<T, H>(x, n), n), n) == j,
{
    lemma_home_bound::<T, H>(x, n);
}

/// In a table in Robin Hood order, every slot from the home of a stored
/// value up to the value itself is occupied, and the slot `k` steps after
/// the home holds a value displaced at least `k` steps.
pub proof fn lemma_run<T, H: KeyHash<T>>(s: Seq<T>, inv: T, p: int, k: int)
    requires
        s.len() > 0,
        rh_local::<T, H>(s, inv),
        0 <= p < s.len(),
        s[p] != inv,
        0 <= k <= disp::<T, H>(s, p),
    ensures
        s[probe_slot::<T, H>(s[p], k, s.len() as int)] != inv,
        disp::<T, H>(s, probe_slot::<T, H>(s[p], k, s.len() as int)) >= k,
    decreases disp::<T, H>(s, p) - k,
{
    let n = s.len() as int;
    lemma_home_bound::<T, H>(s[p], n);
    if k < disp::<T, H>(s, p) {
        lemma_run::<T, H>(s, inv, p, k + 1);
        let j1 = probe_slot::<T, H>(s[p], k + 1, n);
        assert(rh_at::<T, H>(s, inv, j1));
        assert(prv(j1, n) == probe_slot::<T, H>(s[p], k, n));
    }
}

/// If the search for `x` stops at distance `d` on an empty slot, or on a
/// value less displaced than `d`, then `x` is not stored.
pub proof fn lemma_absent<T, H: KeyHash<T>>(s: Seq<T>, inv: T, x: T, d: int)
    requires
        table_wf::<T, H>(s, inv),
        x != inv,
        0 <= d < s.len(),
        probe_clear::<T, H>(s, inv, x, d),
        s[probe_slot::<T, H>(x, d, s.len() as int)] == inv || (s[probe_slot::<T, H>(
            x,
            d,
            s.len() as int,
        )] != x && disp::<T, H>(s, probe_slot::<T, H>(x, d, s.len() as int)) < d),
    ensures
        !s.contains(x),
{
    let n = s.len() as int;
    lemma_home_bound::<T, H>(x, n);
    if s.contains(x) {
        let p = choose|p: int| 0 <= p < n && s[p] == x;
        let dp = disp::<T, H>(s, p);
        assert(probe_slot::<T, H>(x, dp, n) == p);
        if dp < d {
            assert(passes::<T, H>(s, inv, x, dp));
        } else if dp > d {
            lemma_run::<T, H>(s, inv, p, d);
        }
    }
}

/// A search that walked past every slot has seen every slot.
pub proof fn lemma_clear_all<T, H: KeyHash<T>>(s: Seq<T>, inv: T, x: T)
    requires
        s.len() > 0,
        probe_clear::<T, H>(s, inv, x, s.len() as int),
    ensures
        !s.contains(x),
        forall|j: int| 0 <= j < s.len() ==> s[j] != inv,
{
    let n = s.len() as int;
    assert forall|j: int| 0 <= j < n implies s[j] != inv && s[j] != x by {
        lemma_probe_slot_of::<T, H>(x, j, n);
        assert(passes::<T, H>(s, inv, x, pdist(j, home::<T, H>(x, n), n)));
    }
}

pub enum SearchResult {
    Present(usize),
    Empty(usize),
    /// The value is not present, but the slot holds a less displaced value
    /// whose place it can take.
    Richer(usize),
}

/// What a search for `x` that started `d0` steps after its home reports.
pub open spec fn search_ok<T, H: KeyHash<T>>(s: Seq<T>, inv: T, x: T, d0: int, r: SearchResult) -> bool {
    let n = s.len() as int;
    match r {
        SearchResult::Present(i) => i < n && s[i as int] == x,
        SearchResult::Empty(i) => {
            &&& i < n
            &&& s[i as int] == inv
            &&& !s.contains(x)
            &&& d0 <= pdist(i as int, home::<T, H>(x, n), n)
            &&& probe_clear::<T, H>(s, inv, x, pdist(i as int, home::<T, H>(x, n), n))
        },
        SearchResult::Richer(i) => {
            &&& i < n
            &&& s[i as int] != inv
            &&& s[i as int] != x
            &&& !s.contains(x)
            &&& ((probe_clear::<T, H>(s, inv, x, n) && i == home::<T, H>(x, n)) || (d0 <= pdist(
                i as int,
                home::<T, H>(x, n),
                n,
            ) && probe_clear::<T, H>(s, inv, x, pdist(i as int, home::<T, H>(x, n), n))
                && disp::<T, H>(s, i as int) < pdist(i as int, home::<T, H>(x, n), n)))
        },
    }
}

pub fn same_val<T: PartialEq>(a: &T, b: &T) -> (r: bool)
    requires
        vstd::laws_eq::obeys_concrete_eq::<T>(),
    ensures
        r == (*a == *b),
{
    proof {
        reveal(vstd::laws_eq::obeys_concrete_eq);
    }
    *a == *b
}

/// Searches for `elem`, starting at slot `i_start`, which the search
/// reaches after walking past all slots before it.
pub fn search_from<T: Copy + PartialEq, H: KeyHash<T>>(
    v: &[T],
    i_start: usize,
    elem: T,
    invalid: T,
) -> (r: SearchResult)
    requires
        vstd::laws_eq::obeys_concrete_eq::<T>(),
        table_wf::<T, H>(v@, invalid),
        elem != invalid,
        i_start < v@.len(),
        probe_clear::<T, H>(
            v@,
            invalid,
            elem,
            pdist(i_start as int, home::<T, H>(elem, v@.len() as int), v@.len() as int),
        ),
    ensures
        search_ok::<T, H>(
            v@,
            invalid,
            elem,
            pdist(i_start as int, home::<T, H>(elem, v@.len() as int), v@.len() as int),
            r,
        ),
{
    let ghost s = v@;
    let ghost n = v@.len() as int;
    let h = H::hash(elem);
    let mask = v.len() - 1;
    proof {
        lemma_wrapping_sub_mask(i_start, h, v.len());
        lemma_small_mod(i_start as nat, v.len() as nat);
        lemma_home_bound::<T, H>(elem, n);
    }
    let ghost d0 = pdist(i_start as int, home::<T, H>(elem, n), n);
    let mut dist = i_start.wrapping_sub(h) & mask;
    assert(dist == d0);
    loop
        invariant
            vstd::laws_eq::obeys_concrete_eq::<T>(),
            s == v@,
            n == s.len(),
            table_wf::<T, H>(s, invalid),
            elem != invalid,
            mask == n - 1,
            h == H::spec_hash(elem),
            0 <= home::<T, H>(elem, n) < n,
            d0 == pdist(i_start as int, home::<T, H>(elem, n), n),
            d0 <= dist <= n,
            probe_clear::<T, H>(s, invalid, elem, dist as int),
        decreases n - dist,
    {
        proof {
            lemma_wrapping_add_mask(h, dist, v.len());
        }
        let i = h.wrapping_add(dist) & mask;
        assert(i == probe_slot::<T, H>(elem, dist as int, n));
        if same_val(&v[i], &invalid) {
            proof {
                if dist == n {
                    assert(passes::<T, H>(s, invalid, elem, 0));
                    assert(false);
                } else {
                    lemma_absent::<T, H>(s, invalid, elem, dist as int);
                    assert(pdist(i as int, home::<T, H>(elem, n), n) == dist);
                }
            }
            return SearchResult::Empty(i);
        } else if same_val(&v[i], &elem) {
            return SearchResult::Present(i);
        }
        let hi = H::hash(v[i]);
        proof {
            lemma_wrapping_sub_mask(i, hi, v.len());
            lemma_small_mod(i as nat, v.len() as nat);
        }
        let his_dist = i.wrapping_sub(hi) & mask;
        assert(his_dist == disp::<T, H>(s, i as int));
        if his_dist < dist {
            proof {
                if dist == n {
                    lemma_clear_all::<T, H>(s, invalid, elem);
                    assert(i == home::<T, H>(elem, n));
                } else {
                    lemma_absent::<T, H>(s, invalid, elem, dist as int);
                    assert(pdist(i as int, home::<T, H>(elem, n), n) == dist);
                }
            }
            return SearchResult::Richer(i);
        }
        proof {
            if dist == n {
                assert(passes::<T, H>(s, invalid, elem, 0));
                assert(disp::<T, H>(s, i as int) < n);
            }
            assert(passes::<T, H>(s, invalid, elem, dist as int));
        }
        dist += 1;
    }
}

/// Searches for `elem` from its home slot.
pub fn search<T: Copy + PartialEq, H: KeyHash<T>>(v: &[T], elem: T, invalid: T) -> (r: SearchResult)
    requires
        vstd::laws_eq::obeys_concrete_eq::<T>(),
        table_wf::<T, H>(v@, invalid),
        elem != invalid,
    ensures
        search_ok::<T, H>(v@, invalid, elem, 0, r),
{
    let h = H::hash(elem);
    proof {
        lemma_mask_is_mod(h, v.len());
        lemma_home_bound::<T, H>(elem, v@.len() as int);
    }
    let mask = v.len() - 1;
    let start = h & mask;
    search_from::<T, H>(v, start, elem, invalid)
}

/// Storing `x` where its search stopped keeps the table well formed; the
/// value it displaces can then be searched for from where it was.
pub proof fn lemma_place<T, H: KeyHash<T>>(s: Seq<T>, inv: T, x: T, j: int)
    requires
        table_wf::<T, H>(s, inv),
        x != inv,
        !s.contains(x),
        0 <= j < s.len(),
        probe_clear::<T, H>(s, inv, x, pdist(j, home::<T, H>(x, s.len() as int), s.len() as int)),
        s[j] == inv || disp::<T, H>(s, j) < pdist(j, home::<T, H>(x, s.len() as int), s.len() as int),
    ensures
        table_wf::<T, H>(s.update(j, x), inv),
        s[j] == inv ==> contents(s.update(j, x), inv) == contents(s, inv).insert(x),
        s[j] != inv ==> {
            &&& contents(s.update(j, x), inv).insert(s[j]) == contents(s, inv).insert(x)
            &&& !s.update(j, x).contains(s[j])
            &&& probe_clear::<T, H>(s.update(j, x), inv, s[j], disp::<T, H>(s, j) + 1)
        },
{
    let n = s.len() as int;
    let t = s.update(j, x);
    let dx = pdist(j, home::<T, H>(x, n), n);
    lemma_home_bound::<T, H>(x, n);
    assert forall|q: int| 0 <= q < n implies #[trigger] rh_at::<T, H>(t, inv, q) by {
        assert(rh_at::<T, H>(s, inv, q));
        if q == j {
            if dx != 0 {
                assert(passes::<T, H>(s, inv, x, dx - 1));
                assert(probe_slot::<T, H>(x, dx - 1, n) == prv(j, n));
            }
        } else if q == nxt(j, n) {
            assert(prv(q, n) == j);
        } else {
            assert(prv(q, n) != j);
        }
    }
    assert(no_dup(t, inv)) by {
        assert forall|a: int, b: int|
            0 <= a < n && 0 <= b < n && a != b && t[a] != inv implies #[trigger] t[a] != #[trigger] t[b] by {
            if a != j && b != j {
                assert(s[a] != s[b]);
            } else if a == j {
                assert(s[b] != x);
            } else {
                assert(s[a] != x);
            }
        }
    }
    if s[j] == inv {
        assert(contents(t, inv) =~= contents(s, inv).insert(x)) by {
            assert forall|y: T| contents(t, inv).contains(y) <==> contents(s, inv).insert(x).contains(y) by {
                if y != inv && y != x && s.contains(y) {
                    let a = choose|a: int| 0 <= a < n && s[a] == y;
                    assert(t[a] == y);
                }
                if y != inv && t.contains(y) && y != x {
                    let a = choose|a: int| 0 <= a < n && t[a] == y;
                    assert(s[a] == y);
                }
                if y == x {
                    assert(t[j] == x);
                }
            }
        }
    } else {
        let y = s[j];
        let dy = disp::<T, H>(s, j);
        lemma_home_bound::<T, H>(y, n);
        assert(contents(t, inv).insert(y) =~= contents(s, inv).insert(x)) by {
            assert forall|z: T| contents(t, inv).insert(y).contains(z) <==> contents(s, inv).insert(x).contains(z) by {
                if z != inv && z != x && s.contains(z) && z != y {
                    let a = choose|a: int| 0 <= a < n && s[a] == z;
                    assert(t[a] == z);
                }
                if z != inv && t.contains(z) && z != x {
                    let a = choose|a: int| 0 <= a < n && t[a] == z;
                    assert(s[a] == z);
                }
                if z == x {
                    assert(t[j] == x);
                }
                if z == y {
                    assert(s[j] == y);
                }
            }
        }
        assert(!t.contains(y)) by {
            if t.contains(y) {
                let a = choose|a: int| 0 <= a < n && t[a] == y;
                if a != j {
                    assert(s[a] == s[j]);
                }
            }
        }
        assert forall|m: int| 0 <= m < dy + 1 implies #[trigger] passes::<T, H>(t, inv, y, m) by {
            let q = probe_slot::<T, H>(y, m, n);
            if m < dy {
                lemma_run::<T, H>(s, inv, j, m);
                assert(q != j);
                assert(s[q] != s[j]);
            } else {
                assert(q == j);
            }
        }
    }
}

/// Where a carried value's search starts, relative to an empty slot.
pub open spec fn steal_state<T, H: KeyHash<T>>(s: Seq<T>, inv: T, cur: T, i: int, e: int) -> bool {
    let n = s.len() as int;
    &&& table_wf::<T, H>(s, inv)
    &&& cur != inv
    &&& !s.contains(cur)
    &&& 0 <= i < n
    &&& s[i] != inv
    &&& probe_clear::<T, H>(s, inv, cur, pdist(i, home::<T, H>(cur, n), n) + 1)
    &&& 0 <= e < n
    &&& s[e] == inv
}

/// A search for the carried value cannot reach past the empty slot `e`.
pub proof fn lemma_steal_prelude<T, H: KeyHash<T>>(s: Seq<T>, inv: T, cur: T, i: int, e: int)
    requires
        steal_state::<T, H>(s, inv, cur, i, e),
    ensures
        pdist(i, home::<T, H>(cur, s.len() as int), s.len() as int) < pdist(
            e,
            home::<T, H>(cur, s.len() as int),
            s.len() as int,
        ),
{
    let n = s.len() as int;
    lemma_home_bound::<T, H>(cur, n);
    lemma_probe_slot_of::<T, H>(cur, e, n);
    let de = pdist(e, home::<T, H>(cur, n), n);
    if de < pdist(i, home::<T, H>(cur, n), n) + 1 {
        assert(passes::<T, H>(s, inv, cur, de));
    }
}

/// Taking the slot of a less displaced value moves the carried value
/// strictly closer to the empty slot `e`.
pub proof fn lemma_steal_step<T, H: KeyHash<T>>(s: Seq<T>, inv: T, cur: T, i: int, inew: usize, e: int)
    requires
        steal_state::<T, H>(s, inv, cur, i, e),
        search_ok::<T, H>(s, inv, cur, pdist(i, home::<T, H>(cur, s.len() as int), s.len() as int), SearchResult::Richer(inew)),
    ensures
        steal_state::<T, H>(s.update(inew as int, cur), inv, s[inew as int], inew as int, e),
        contents(s.update(inew as int, cur), inv).insert(s[inew as int]) == contents(s, inv).insert(cur),
        pdist(e, inew as int, s.len() as int) < pdist(e, i, s.len() as int),
{
    let n = s.len() as int;
    lemma_steal_prelude::<T, H>(s, inv, cur, i, e);
    let d0 = pdist(i, home::<T, H>(cur, n), n);
    if probe_clear::<T, H>(s, inv, cur, n) && inew == home::<T, H>(cur, n) {
        lemma_clear_all::<T, H>(s, inv, cur);
        assert(false);
    }
    let dj = pdist(inew as int, home::<T, H>(cur, n), n);
    let de = pdist(e, home::<T, H>(cur, n), n);
    if dj == d0 {
        assert(passes::<T, H>(s, inv, cur, d0));
        assert(inew == i);
    }
    if de < dj {
        assert(passes::<T, H>(s, inv, cur, de));
    }
    lemma_place::<T, H>(s, inv, cur, inew as int);
    lemma_home_bound::<T, H>(s[inew as int], n);
}

/// Carries `elem` forward from slot `i`, where it was displaced, until it
/// finds a slot of its own.
pub fn steal<T: Copy + PartialEq, H: KeyHash<T>>(v: &mut [T], i: usize, elem: T, invalid: T)
    requires
        vstd::laws_eq::obeys_concrete_eq::<T>(),
        exists|e: int| steal_state::<T, H>(old(v)@, invalid, elem, i as int, e),
    ensures
        final(v)@.len() == old(v)@.len(),
        table_wf::<T, H>(final(v)@, invalid),
        contents(final(v)@, invalid) == contents(old(v)@, invalid).insert(elem),
{
    let ghost n = v@.len() as int;
    let ghost target = contents(v@, invalid).insert(elem);
    let ghost e = choose|e: int| steal_state::<T, H>(v@, invalid, elem, i as int, e);
    let mut i = i;
    let mut cur = elem;
    loop
        invariant
            vstd::laws_eq::obeys_concrete_eq::<T>(),
            v@.len() == n,
            n == old(v)@.len(),
            target == contents(old(v)@, invalid).insert(elem),
            steal_state::<T, H>(v@, invalid, cur, i as int, e),
            contents(v@, invalid).insert(cur) == target,
        decreases pdist(e, i as int, n),
    {
        let ghost s = v@;
        match search_from::<T, H>(v, i, cur, invalid) {
            SearchResult::Present(j) => {
                proof {
                    assert(s[j as int] == cur);
                }
                return;
            },
            SearchResult::Empty(j) => {
                proof {
                    lemma_place::<T, H>(s, invalid, cur, j as int);
                }
                v[j] = cur;
                assert(v@ == s.update(j as int, cur));
                return;
            },
            SearchResult::Richer(inew) => {
                proof {
                    lemma_steal_step::<T, H>(s, invalid, cur, i as int, inew, e);
                }
                let displaced = v[inew];
                v[inew] = cur;
                cur = displaced;
                i = inew;
            },
        }
    }
}

/// Adds `elem` to the table; it must have an empty slot.
pub fn insert<T: Copy + PartialEq, H: KeyHash<T>>(v: &mut [T], elem: T, invalid: T) -> (added: bool)
    requires
        vstd::laws_eq::obeys_concrete_eq::<T>(),
        table_wf::<T, H>(old(v)@, invalid),
        elem != invalid,
        exists|e: int| 0 <= e < old(v)@.len() && old(v)@[e] == invalid,
    ensures
        final(v)@.len() == old(v)@.len(),
        table_wf::<T, H>(final(v)@, invalid),
        contents(final(v)@, invalid) == contents(old(v)@, invalid).insert(elem),
        added == !contents(old(v)@, invalid).contains(elem),
{
    let ghost s = v@;
    let ghost n = v@.len() as int;
    match search::<T, H>(v, elem, invalid) {
        SearchResult::Present(i) => {
            proof {
                assert(contents(s, invalid).contains(elem));
                assert(contents(s, invalid).insert(elem) =~= contents(s, invalid));
            }
            false
        },
        SearchResult::Empty(i) => {
            proof {
                lemma_place::<T, H>(s, invalid, elem, i as int);
            }
            v[i] = elem;
            true
        },
        SearchResult::Richer(i) => {
            proof {
                if probe_clear::<T, H>(s, invalid, elem, n) && i == home::<T, H>(elem, n) {
                    lemma_clear_all::<T, H>(s, invalid, elem);
                    assert(false);
                }
                lemma_place::<T, H>(s, invalid, elem, i as int);
            }
            let displaced = v[i];
            v[i] = elem;
            proof {
                let e = choose|e: int| 0 <= e < n && s[e] == invalid;
                assert(v@[e] == invalid);
                assert(steal_state::<T, H>(v@, invalid, displaced, i as int, e));
            }
            steal::<T, H>(v, i, displaced, invalid);
            true
        },
    }
}

/// The displacement of slot `i`, or zero when it is empty.
pub open spec fn dval<T, H: KeyHash<T>>(s: Seq<T>, inv: T, i: int) -> int {
    if s[i] != inv {
        disp::<T, H>(s, i)
    } else {
        0
    }
}

/// The total displacement of the first `k` slots.
pub open spec fn dsum<T, H: KeyHash<T>>(s: Seq<T>, inv: T, k: int) -> int
    decreases k,
{
    if k <= 0 {
        0
    } else {
        dsum::<T, H>(s, inv, k - 1) + dval::<T, H>(s, inv, k - 1)
    }
}

pub proof fn lemma_dsum_nonneg<T, H: KeyHash<T>>(s: Seq<T>, inv: T, k: int)
    requires
        0 <= k <= s.len(),
        s.len() > 0,
    ensures
        dsum::<T, H>(s, inv, k) >= 0,
    decreases k,
{
    if k > 0 {
        lemma_dsum_nonneg::<T, H>(s, inv, k - 1);
        lemma_home_bound::<T, H>(s[k - 1], s.len() as int);
    }
}

pub proof fn lemma_dsum_update<T, H: KeyHash<T>>(s: Seq<T>, inv: T, j: int, a: T, k: int)
    requires
        0 <= j < s.len(),
        0 <= k <= s.len(),
    ensures
        dsum::<T, H>(s.update(j, a), inv, k) == dsum::<T, H>(s, inv, k) + (if j < k {
            dval::<T, H>(s.update(j, a), inv, j) - dval::<T, H>(s, inv, j)
        } else {
            0
        }),
    decreases k,
{
    if k > 0 {
        lemma_dsum_update::<T, H>(s, inv, j, a, k - 1);
    }
}

/// The hole at slot `i` is followed by a value that, moved into the hole,
/// would still be in Robin Hood order.
pub open spec fn hole_ok<T, H: KeyHash<T>>(t: Seq<T>, inv: T, i: int) -> bool {
    let n = t.len() as int;
    let q = nxt(i, n);
    (t[q] != inv && disp::<T, H>(t, q) >= 1) ==> (disp::<T, H>(t, q) - 1 == 0 || (t[prv(i, n)] != inv
        && disp::<T, H>(t, q) - 1 <= disp::<T, H>(t, prv(i, n)) + 1))
}

/// The table with a hole at `hole` is in Robin Hood order everywhere but
/// right after the hole.
pub open spec fn holed_wf<T, H: KeyHash<T>>(t: Seq<T>, inv: T, hole: int) -> bool {
    let n = t.len() as int;
    &&& is_table_len(n)
    &&& 0 <= hole < n
    &&& t[hole] == inv
    &&& no_dup(t, inv)
    &&& forall|j: int| 0 <= j < n && j != nxt(hole, n) ==> #[trigger] rh_at::<T, H>(t, inv, j)
    &&& hole_ok::<T, H>(t, inv, hole)
}

/// Emptying a slot of a well-formed table leaves a hole.
pub proof fn lemma_open_hole<T, H: KeyHash<T>>(s: Seq<T>, inv: T, i: int)
    requires
        table_wf::<T, H>(s, inv),
        0 <= i < s.len(),
        s[i] != inv,
    ensures
        holed_wf::<T, H>(s.update(i, inv), inv, i),
        contents(s.update(i, inv), inv) == contents(s, inv).remove(s[i]),
        dsum::<T, H>(s.update(i, inv), inv, s.len() as int) >= 0,
{
    let n = s.len() as int;
    let t = s.update(i, inv);
    let x = s[i];
    assert(contents(t, inv) =~= contents(s, inv).remove(x)) by {
        assert forall|y: T| contents(t, inv).contains(y) <==> contents(s, inv).remove(x).contains(y) by {
            if y != inv && y != x && s.contains(y) {
                let a = choose|a: int| 0 <= a < n && s[a] == y;
                assert(t[a] == y);
            }
            if y != inv && t.contains(y) {
                let a = choose|a: int| 0 <= a < n && t[a] == y;
                assert(s[a] == y);
                assert(a != i);
            }
        }
    }
    assert forall|a: int, b: int|
        0 <= a < n && 0 <= b < n && a != b && t[a] != inv implies #[trigger] t[a] != #[trigger] t[b] by {
        assert(s[a] != s[b]);
    }
    assert forall|j: int| 0 <= j < n && j != nxt(i, n) implies #[trigger] rh_at::<T, H>(t, inv, j) by {
        assert(rh_at::<T, H>(s, inv, j));
        if j != i {
            assert(prv(j, n) != i);
        }
    }
    let q = nxt(i, n);
    assert(rh_at::<T, H>(s, inv, q));
    assert(rh_at::<T, H>(s, inv, i));
    if q != i {
        assert(prv(q, n) == i);
    }
    assert(hole_ok::<T, H>(t, inv, i));
    lemma_dsum_nonneg::<T, H>(t, inv, n);
}

/// Moving the value after the hole back into it moves the hole forward.
pub proof fn lemma_shift_back<T, H: KeyHash<T>>(t: Seq<T>, inv: T, hole: int)
    requires
        holed_wf::<T, H>(t, inv, hole),
        nxt(hole, t.len() as int) != hole,
        t[nxt(hole, t.len() as int)] != inv,
        disp::<T, H>(t, nxt(hole, t.len() as int)) >= 1,
    ensures
        holed_wf::<T, H>(
            t.update(hole, t[nxt(hole, t.len() as int)]).update(nxt(hole, t.len() as int), inv),
            inv,
            nxt(hole, t.len() as int),
        ),
        contents(t.update(hole, t[nxt(hole, t.len() as int)]).update(nxt(hole, t.len() as int), inv), inv)
            == contents(t, inv),
        dsum::<T, H>(
            t.update(hole, t[nxt(hole, t.len() as int)]).update(nxt(hole, t.len() as int), inv),
            inv,
            t.len() as int,
        ) == dsum::<T, H>(t, inv, t.len() as int) - 1,
{
    let n = t.len() as int;
    let q = nxt(hole, n);
    let w = t[q];
    let tm = t.update(hole, w);
    let t1 = tm.update(q, inv);
    let d = disp::<T, H>(t, q);
    lemma_home_bound::<T, H>(w, n);
    assert(disp::<T, H>(t1, hole) == d - 1);
    assert forall|j: int| 0 <= j < n && j != nxt(q, n) implies #[trigger] rh_at::<T, H>(t1, inv, j) by {
        if j == hole {
            if prv(hole, n) == q {
                assert(d - 1 == 0);
            }
        } else if j == q {
        } else {
            assert(prv(j, n) != hole);
            assert(prv(j, n) != q);
            assert(rh_at::<T, H>(t, inv, j));
        }
    }
    let q2 = nxt(q, n);
    if q2 == hole {
        assert(t1[q2] == w);
    } else {
        assert(rh_at::<T, H>(t, inv, q2));
        assert(prv(q2, n) == q);
    }
    assert(hole_ok::<T, H>(t1, inv, q));
    assert forall|a: int, b: int|
        0 <= a < n && 0 <= b < n && a != b && t1[a] != inv implies #[trigger] t1[a] != #[trigger] t1[b] by {
        let a0 = if a == hole { q } else { a };
        let b0 = if b == hole { q } else { b };
        assert(t1[a] == t[a0]);
        if t1[b] != inv {
            assert(t1[b] == t[b0]);
        }
    }
    assert(contents(t1, inv) =~= contents(t, inv)) by {
        assert forall|y: T| contents(t1, inv).contains(y) <==> contents(t, inv).contains(y) by {
            if y != inv && t.contains(y) {
                let a = choose|a: int| 0 <= a < n && t[a] == y;
                if a == q {
                    assert(t1[hole] == y);
                } else {
                    assert(t1[a] == y);
                }
            }
            if y != inv && t1.contains(y) {
                let a = choose|a: int| 0 <= a < n && t1[a] == y;
                if a == hole {
                    assert(t[q] == y);
                } else {
                    assert(t[a] == y);
                }
            }
        }
    }
    lemma_dsum_update::<T, H>(t, inv, hole, w, n);
    lemma_dsum_update::<T, H>(tm, inv, q, inv, n);
    assert(dval::<T, H>(tm, inv, q) == d);
}

/// A hole followed by an empty slot or a value at home can simply be left empty.
pub proof fn lemma_close_hole<T, H: KeyHash<T>>(t: Seq<T>, inv: T, hole: int)
    requires
        holed_wf::<T, H>(t, inv, hole),
        t[nxt(hole, t.len() as int)] == inv || disp::<T, H>(t, nxt(hole, t.len() as int)) == 0,
    ensures
        table_wf::<T, H>(t, inv),
{
    let n = t.len() as int;
    assert(rh_at::<T, H>(t, inv, nxt(hole, n)));
    assert forall|j: int| 0 <= j < n implies #[trigger] rh_at::<T, H>(t, inv, j) by {
        if j != nxt(hole, n) {
            assert(rh_at::<T, H>(t, inv, j));
        }
    }
}

/// Removes the value in slot `i`, moving back the values after it that
/// are not at home.
pub fn remove_at<T: Copy + PartialEq, H: KeyHash<T>>(v: &mut [T], i: usize, invalid: T)
    requires
        vstd::laws_eq::obeys_concrete_eq::<T>(),
        table_wf::<T, H>(old(v)@, invalid),
        i < old(v)@.len(),
        old(v)@[i as int] != invalid,
    ensures
        final(v)@.len() == old(v)@.len(),
        table_wf::<T, H>(final(v)@, invalid),
        contents(final(v)@, invalid) == contents(old(v)@, invalid).remove(old(v)@[i as int]),
{
    let ghost n = v@.len() as int;
    let ghost target = contents(v@, invalid).remove(v@[i as int]);
    proof {
        lemma_mask_is_mod(0, v.len());
        lemma_open_hole::<T, H>(v@, invalid, i as int);
    }
    let mask = v.len() - 1;
    let mut hole = i;
    let ghost mut t = v@.update(hole as int, invalid);
    loop
        invariant
            vstd::laws_eq::obeys_concrete_eq::<T>(),
            n == v@.len(),
            n == old(v)@.len(),
            target == contents(old(v)@, invalid).remove(old(v)@[i as int]),
            mask == n - 1,
            is_table_len(n),
            hole < n,
            t == v@.update(hole as int, invalid),
            holed_wf::<T, H>(t, invalid, hole as int),
            contents(t, invalid) == target,
            dsum::<T, H>(t, invalid, n) >= 0,
        decreases dsum::<T, H>(t, invalid, n),
    {
        proof {
            lemma_mask_is_mod((hole + 1) as usize, v.len());
            if hole + 1 < n {
                lemma_small_mod((hole + 1) as nat, n as nat);
            } else {
                vstd::arithmetic::div_mod::lemma_mod_self_0(n);
            }
        }
        let iplus1 = (hole + 1) & mask;
        assert(iplus1 == nxt(hole as int, n));
        let stop = if same_val(&v[iplus1], &invalid) {
            true
        } else {
            let hq = H::hash(v[iplus1]);
            proof {
                lemma_wrapping_sub_mask(hq, iplus1, v.len());
                lemma_small_mod(iplus1 as nat, v.len() as nat);
                lemma_home_bound::<T, H>(v@[iplus1 as int], n);
            }
            (hq.wrapping_sub(iplus1) & mask) == 0
        };
        if stop {
            proof {
                if iplus1 != hole {
                    assert(t[iplus1 as int] == v@[iplus1 as int]);
                } else {
                    lemma_home_bound::<T, H>(v@[iplus1 as int], n);
                }
                lemma_close_hole::<T, H>(t, invalid, hole as int);
            }
            v[hole] = invalid;
            assert(v@ == t);
            return;
        }
        proof {
            assert(iplus1 != hole);
            assert(t[iplus1 as int] == v@[iplus1 as int]);
            lemma_shift_back::<T, H>(t, invalid, hole as int);
            lemma_dsum_nonneg::<T, H>(
                t.update(hole as int, t[iplus1 as int]).update(iplus1 as int, invalid),
                invalid,
                n,
            );
        }
        let moved = v[iplus1];
        v[hole] = moved;
        let ghost t1 = t.update(hole as int, moved).update(iplus1 as int, invalid);
        hole = iplus1;
        proof {
            t = t1;
            assert(t == v@.update(hole as int, invalid));
        }
    }
}

pub proof fn lemma_table_len_pos(n: int)
    requires
        is_table_len(n),
    ensures
        n > 0,
{
    let p = choose|p: nat| p < usize::BITS && n == pow2(p);
    lemma_pow2_pos(p);
}

/// A table of empty slots is well formed and holds nothing.
pub proof fn lemma_empty_table<T, H: KeyHash<T>>(s: Seq<T>, inv: T)
    requires
        is_table_len(s.len() as int),
        forall|i: int| 0 <= i < s.len() ==> s[i] == inv,
    ensures
        table_wf::<T, H>(s, inv),
        contents(s, inv) == Set::<T>::empty(),
{
    assert(contents(s, inv) =~= Set::<T>::empty());
    assert forall|j: int| 0 <= j < s.len() implies #[trigger] rh_at::<T, H>(s, inv, j) by {}
}

/// What a table holds is finite, and a table holding fewer values than
/// it has slots has an empty slot.
pub proof fn lemma_contents_finite<T>(s: Seq<T>, inv: T)
    requires
        no_dup(s, inv),
    ensures
        contents(s, inv).finite(),
        contents(s, inv).len() <= s.len(),
        contents(s, inv).len() < s.len() ==> exists|e: int| 0 <= e < s.len() && s[e] == inv,
{
    assert(contents(s, inv).subset_of(s.to_set()));
    vstd::set_lib::lemma_len_subset(contents(s, inv), s.to_set());
    s.lemma_cardinality_of_set();
    if !(exists|e: int| 0 <= e < s.len() && s[e] == inv) {
        assert forall|e: int| 0 <= e < s.len() implies s[e] != inv by {
            if s[e] == inv {
                assert(exists|e: int| 0 <= e < s.len() && s[e] == inv);
            }
        }
        assert(contents(s, inv) =~= s.to_set());
        assert forall|i: int, j: int| 0 <= i < s.len() && 0 <= j < s.len() && i != j implies s[i] != s[j] by {
            assert(s[i] != inv);
        }
        assert(s.no_duplicates());
        s.unique_seq_to_set();
    }
}

/// `64 - c.leading_zeros()` is the number of significant bits of `c`.
pub proof fn lemma_bit_length(c: u64)
    ensures
        0 <= 64 - vstd::std_specs::bits::u64_leading_zeros(c) <= 64,
        (c as nat) < pow2((64 - vstd::std_specs::bits::u64_leading_zeros(c)) as nat),
        c > 0 ==> pow2((63 - vstd::std_specs::bits::u64_leading_zeros(c)) as nat) <= c,
{
    let lz = vstd::std_specs::bits::u64_leading_zeros(c);
    vstd::std_specs::bits::axiom_u64_leading_zeros(c);
    vstd::layout::unsigned_int_max_values();
    if lz >= 1 {
        let sh = (64 - lz) as u64;
        vstd::bits::lemma_u64_shr_is_div(c, sh);
        lemma_pow2_pos(sh as nat);
        assert(c >> sh == 0);
        assert(c as nat / pow2(sh as nat) == 0);
        vstd::arithmetic::div_mod::lemma_fundamental_div_mod(c as int, pow2(sh as nat) as int);
        lemma_mod_bound(c as int, pow2(sh as nat) as int);
    }
    if c > 0 {
        let sh = (63 - lz) as u64;
        vstd::bits::lemma_u64_shr_is_div(c, sh);
        lemma_pow2_pos(sh as nat);
        assert((c >> sh) & 1u64 != 0u64);
        assert(c >> sh != 0u64) by {
            if c >> sh == 0u64 {
                assert(0u64 & 1u64 == 0u64) by (bit_vector);
            }
        }
        assert(c as nat / pow2(sh as nat) >= 1);
        vstd::arithmetic::div_mod::lemma_fundamental_div_mod(c as int, pow2(sh as nat) as int);
        lemma_mod_bound(c as int, pow2(sh as nat) as int);
        assert(pow2(sh as nat) * (c as nat / pow2(sh as nat)) >= pow2(sh as nat)) by (nonlinear_arith)
            requires c as nat / pow2(sh as nat) >= 1, pow2(sh as nat) > 0;
    }
}

/// A table of `n` empty slots.
pub fn empty_table<T: Copy>(inv: T, n: usize) -> (v: Vec<T>)
    ensures
        v@.len() == n,
        forall|i: int| 0 <= i < n ==> v@[i] == inv,
{
    let mut v: Vec<T> = Vec::with_capacity(n);
    let mut k: usize = 0;
    while k < n
        invariant
            k <= n,
            v@.len() == k,
            forall|i: int| 0 <= i < k ==> v@[i] == inv,
        decreases n - k,
    {
        v.push(inv);
        k += 1;
    }
    v
}

/// The values stored in the first `k` slots.
pub open spec fn contents_upto<T>(s: Seq<T>, inv: T, k: int) -> Set<T> {
    Set::new(|x: T| x != inv && exists|a: int| 0 <= a < k && s[a] == x)
}

pub proof fn lemma_contents_upto_step<T>(s: Seq<T>, inv: T, k: int)
    requires
        0 <= k < s.len(),
    ensures
        contents_upto(s, inv, k + 1) == (if s[k] != inv {
            contents_upto(s, inv, k).insert(s[k])
        } else {
            contents_upto(s, inv, k)
        }),
        contents_upto(s, inv, k).subset_of(contents(s, inv)),
        contents_upto(s, inv, 0) == Set::<T>::empty(),
        contents_upto(s, inv, s.len() as int) == contents(s, inv),
{
    let c1 = contents_upto(s, inv, k + 1);
    let c0 = contents_upto(s, inv, k);
    let r = if s[k] != inv { c0.insert(s[k]) } else { c0 };
    assert(c1 =~= r) by {
        assert forall|x: T| c1.contains(x) <==> r.contains(x) by {
            if c1.contains(x) {
                let a = choose|a: int| 0 <= a < k + 1 && s[a] == x;
                if a < k {
                    assert(c0.contains(x));
                }
            }
            if c0.contains(x) {
                let a = choose|a: int| 0 <= a < k && s[a] == x;
                assert(0 <= a < k + 1 && s[a] == x);
            }
            if s[k] != inv && x == s[k] {
                assert(0 <= k < k + 1 && s[k] == x);
            }
        }
    }
    assert forall|x: T| c0.contains(x) implies contents(s, inv).contains(x) by {
        let a = choose|a: int| 0 <= a < k && s[a] == x;
        assert(s[a] == x);
    }
    assert(contents_upto(s, inv, 0) =~= Set::<T>::empty());
    assert(contents_upto(s, inv, s.len() as int) =~= contents(s, inv)) by {
        assert forall|x: T| contents(s, inv).contains(x) implies contents_upto(s, inv, s.len() as int).contains(x) by {
            let a = choose|a: int| 0 <= a < s.len() && s[a] == x;
            assert(0 <= a < s.len() && s[a] == x);
        }
    }
}

/// `1 << p` is a table length.
pub proof fn lemma_shl_table_len(p: usize)
    requires
        p < usize::BITS,
    ensures
        (1usize << p) == pow2(p as nat),
        is_table_len(pow2(p as nat) as int),
        pow2(p as nat) <= usize::MAX,
{
    vstd::layout::unsigned_int_max_values();
    if p + 1 < usize::BITS {
        vstd::arithmetic::power2::lemma_pow2_strictly_increases(p as nat, (usize::BITS - 1) as nat);
    }
    lemma_pow2_adds((usize::BITS - 1) as nat, 1);
    vstd::arithmetic::power2::lemma2_to64();
    vstd::bits::lemma_usize_shl_is_mul(1, p);
}

/// The values stored in slots `k..` of the table.
pub open spec fn contents_from<T>(s: Seq<T>, inv: T, k: int) -> Set<T> {
    Set::new(|x: T| x != inv && exists|a: int| k <= a < s.len() && s[a] == x)
}

/// The stored values, in slot order.
pub fn collect_valid<T: Copy + PartialEq>(v: &[T], invalid: T) -> (r: Vec<T>)
    requires
        vstd::laws_eq::obeys_concrete_eq::<T>(),
        no_dup(v@, invalid),
    ensures
        r@.to_set() == contents(v@, invalid),
        r@.no_duplicates(),
        r@.len() == contents(v@, invalid).len(),
        contents(v@, invalid).finite(),
{
    let mut r: Vec<T> = Vec::new();
    let mut k: usize = 0;
    proof {
        lemma_contents_finite(v@, invalid);
        if v@.len() > 0 {
            lemma_contents_upto_step(v@, invalid, 0);
        } else {
            assert(contents_upto(v@, invalid, 0) =~= Set::<T>::empty());
        }
        assert(r@.to_set() =~= Set::<T>::empty());
    }
    while k < v.len()
        invariant
            vstd::laws_eq::obeys_concrete_eq::<T>(),
            no_dup(v@, invalid),
            k <= v@.len(),
            r@.to_set() == contents_upto(v@, invalid, k as int),
            r@.no_duplicates(),
        decreases v@.len() - k,
    {
        proof {
            lemma_contents_upto_step(v@, invalid, k as int);
        }
        let x = v[k];
        if !same_val(&x, &invalid) {
            proof {
                assert forall|a: int| 0 <= a < r@.len() implies r@[a] != x by {
                    assert(r@.to_set().contains(r@[a]));
                    assert(contents_upto(v@, invalid, k as int).contains(r@[a]));
                    let b = choose|b: int| 0 <= b < k && v@[b] == r@[a];
                    assert(v@[b] != v@[k as int]);
                }
                r@.lemma_push_to_set_commute(x);
            }
            r.push(x);
        }
        k += 1;
    }
    proof {
        if v@.len() > 0 {
            lemma_contents_upto_step(v@, invalid, (v@.len() - 1) as int);
        }
        assert(contents_upto(v@, invalid, v@.len() as int) =~= contents(v@, invalid)) by {
            assert forall|x: T| contents(v@, invalid).contains(x) implies contents_upto(v@, invalid, v@.len() as int).contains(x) by {
                let a = choose|a: int| 0 <= a < v@.len() && v@[a] == x;
                assert(0 <= a < v@.len() && v@[a] == x);
            }
        }
        r@.unique_seq_to_set();
    }
    r
}

} // verus!
