//! The tiniest sets: up to seven `u64`s packed into 61 bits, as the gaps
//! between consecutive values in increasing order, each gap in a field of
//! a fixed width that depends on how many values there are.
use vstd::prelude::*;
use vstd::arithmetic::power2::{pow2, lemma_pow2_pos, lemma_pow2_adds, lemma_pow2_strictly_increases};
use crate::setu64::{bits_needed, lemma_bits_needed, log_2, mask};

verus! {

/// The width of gap `i` of a set of `sz` values.
pub open spec fn split_width(sz: nat, i: nat) -> nat {
    if sz == 1 {
        61
    } else if sz == 2 {
        if i == 0 { 40 } else { 21 }
    } else if sz == 3 {
        if i == 0 { 31 } else { 15 }
    } else if sz == 4 {
        if i == 0 { 25 } else { 12 }
    } else if sz == 5 {
        if i == 0 { 21 } else { 10 }
    } else if sz == 6 {
        if i == 0 { 21 } else { 8 }
    } else {
        if i == 0 { 19 } else { 7 }
    }
}

/// The widths of the gaps of a set of `sz` values.
pub open spec fn widths(sz: nat) -> Seq<nat> {
    Seq::new(sz, |i: int| split_width(sz, i as nat))
}

/// The sum of the widths.
pub open spec fn wsum(ws: Seq<nat>) -> nat
    decreases ws.len(),
{
    if ws.len() == 0 {
        0
    } else {
        ws[0] + wsum(ws.drop_first())
    }
}

/// The gaps that `bits` holds, in fields of widths `ws`, lowest first.
pub open spec fn gaps_of(bits: nat, ws: Seq<nat>) -> Seq<nat>
    decreases ws.len(),
{
    if ws.len() == 0 {
        Seq::empty()
    } else {
        seq![bits % pow2(ws[0])] + gaps_of(bits / pow2(ws[0]), ws.drop_first())
    }
}

/// The number whose fields of widths `ws` hold the gaps `gs`.
pub open spec fn enc(gs: Seq<nat>, ws: Seq<nat>) -> nat
    decreases gs.len(),
{
    if gs.len() == 0 || ws.len() == 0 {
        0
    } else {
        gs[0] + pow2(ws[0]) * enc(gs.drop_first(), ws.drop_first())
    }
}

/// The values that the gaps `gs` give, counting from `base`: the first
/// lies `gs[0]` after `base`, each next one `gs[i] + 1` after the one
/// before.
pub open spec fn elems_of(gs: Seq<nat>, base: nat) -> Seq<nat>
    decreases gs.len(),
{
    if gs.len() == 0 {
        Seq::empty()
    } else {
        seq![base + gs[0]] + elems_of(gs.drop_first(), base + gs[0] + 1)
    }
}

/// Value `base + e` is among the values of the gaps `gs` from `base`.
pub open spec fn gap_has(gs: Seq<nat>, e: int) -> bool
    decreases gs.len(),
{
    if gs.len() == 0 {
        false
    } else if e == gs[0] {
        true
    } else if e < gs[0] {
        false
    } else {
        gap_has(gs.drop_first(), e - gs[0] - 1)
    }
}

/// The gaps once the value `base + e`, which is not among them, is added.
pub open spec fn gaps_insert(gs: Seq<nat>, e: nat) -> Seq<nat>
    decreases gs.len(),
{
    if gs.len() == 0 {
        seq![e]
    } else if e < gs[0] {
        seq![e, (gs[0] - e - 1) as nat] + gs.drop_first()
    } else {
        seq![gs[0]] + gaps_insert(gs.drop_first(), (e - gs[0] - 1) as nat)
    }
}

/// Each gap of `gs` fits the width at the same place of `ws`.
pub open spec fn gaps_fit(gs: Seq<nat>, ws: Seq<nat>) -> bool {
    &&& gs.len() == ws.len()
    &&& forall|j: int| 0 <= j < gs.len() ==> bits_needed(#[trigger] gs[j]) <= ws[j]
}

/// Adding `e` to the gaps `gs` passes the width checks of the insertion
/// into fields of widths `nw`: each gap before the place of `e` fits the
/// new width at its place, the gap of `e` and the rest of the split gap
/// fit theirs, and each later gap fits the width one place on.
pub open spec fn ins_fits(gs: Seq<nat>, nw: Seq<nat>, e: nat) -> bool
    decreases gs.len(),
{
    if gs.len() == 0 {
        nw.len() == 1 && bits_needed(e) <= nw[0]
    } else if nw.len() < 2 || bits_needed(gs[0]) > nw[0] {
        false
    } else if e < gs[0] {
        &&& bits_needed((gs[0] - e - 1) as nat) <= nw[1]
        &&& gaps_fit(gs.drop_first(), nw.skip(2))
    } else {
        ins_fits(gs.drop_first(), nw.drop_first(), (e - gs[0] - 1) as nat)
    }
}

/// A number below `2^b` needs at most `b` binary digits, and one that
/// needs at most `b` lies below `2^b`.
pub proof fn lemma_fits_width(x: nat, b: nat)
    requires
        b >= 1,
    ensures
        bits_needed(x) <= b <==> x < pow2(b),
{
    lemma_bits_needed(x);
    let c = bits_needed(x);
    if c < b {
        lemma_pow2_strictly_increases(c, b);
    }
    if c > b {
        let c1 = (c - 1) as nat;
        assert(c != 1);
        assert(pow2(c1) <= x);
        if b < c1 {
            lemma_pow2_strictly_increases(b, c1);
        }
        assert(pow2(b) <= pow2(c1));
    }
}

/// Fields that each hold their gap decode to the gaps.
pub proof fn lemma_gaps_enc(gs: Seq<nat>, ws: Seq<nat>)
    requires
        gs.len() == ws.len(),
        forall|j: int| 0 <= j < gs.len() ==> #[trigger] gs[j] < pow2(ws[j]),
    ensures
        gaps_of(enc(gs, ws), ws) == gs,
        enc(gs, ws) < pow2(wsum(ws)),
    decreases gs.len(),
{
    lemma_pow2_pos(wsum(ws));
    if gs.len() > 0 {
        let r = enc(gs.drop_first(), ws.drop_first());
        assert forall|j: int| 0 <= j < gs.drop_first().len() implies #[trigger] gs.drop_first()[j]
            < pow2(ws.drop_first()[j]) by {
            assert(gs.drop_first()[j] == gs[j + 1]);
        }
        lemma_gaps_enc(gs.drop_first(), ws.drop_first());
        assert(gs[0] < pow2(ws[0]));
        lemma_pow2_pos(ws[0]);
        vstd::arithmetic::mul::lemma_mul_is_commutative(pow2(ws[0]) as int, r as int);
        vstd::arithmetic::div_mod::lemma_fundamental_div_mod_converse(
            (gs[0] + pow2(ws[0]) * r) as int,
            pow2(ws[0]) as int,
            r as int,
            gs[0] as int,
        );
        assert(enc(gs, ws) == gs[0] + pow2(ws[0]) * r);
        assert(enc(gs, ws) % pow2(ws[0]) == gs[0]);
        assert(enc(gs, ws) / pow2(ws[0]) == r);
        assert(wsum(ws) == ws[0] + wsum(ws.drop_first()));
        lemma_pow2_adds(ws[0], wsum(ws.drop_first()));
        assert(gs[0] + pow2(ws[0]) * r < pow2(ws[0]) * pow2(wsum(ws.drop_first()))) by (nonlinear_arith)
            requires
                gs[0] < pow2(ws[0]),
                r < pow2(wsum(ws.drop_first())),
        ;
        assert(gaps_of(enc(gs, ws), ws) =~= gs);
    }
}

/// Appending a gap in the next field adds it, shifted past the fields
/// before.
pub proof fn lemma_enc_push(gs: Seq<nat>, ws: Seq<nat>, g: nat, w: nat)
    requires
        gs.len() == ws.len(),
    ensures
        enc(gs.push(g), ws.push(w)) == enc(gs, ws) + g * pow2(wsum(ws)),
    decreases gs.len(),
{
    if gs.len() == 0 {
        assert(wsum(ws) == 0);
        vstd::arithmetic::power2::lemma2_to64();
        assert(gs.push(g).drop_first() =~= Seq::<nat>::empty());
        assert(enc(gs.push(g).drop_first(), ws.push(w).drop_first()) == 0);
        assert(gs.push(g)[0] == g);
        assert(ws.push(w)[0] == w);
        let z = enc(gs.push(g).drop_first(), ws.push(w).drop_first());
        assert(pow2(w) * z == 0) by (nonlinear_arith)
            requires
                z == 0,
        ;
        assert(enc(gs.push(g), ws.push(w)) == g);
    } else {
        assert(gs.push(g).drop_first() =~= gs.drop_first().push(g));
        assert(ws.push(w).drop_first() =~= ws.drop_first().push(w));
        assert(gs.push(g)[0] == gs[0]);
        assert(ws.push(w)[0] == ws[0]);
        assert(wsum(ws) == ws[0] + wsum(ws.drop_first()));
        lemma_enc_push(gs.drop_first(), ws.drop_first(), g, w);
        lemma_pow2_adds(ws[0], wsum(ws.drop_first()));
        let r = enc(gs.drop_first(), ws.drop_first());
        assert(pow2(ws[0]) * (r + g * pow2(wsum(ws.drop_first())))
            == pow2(ws[0]) * r + g * (pow2(ws[0]) * pow2(wsum(ws.drop_first())))) by (nonlinear_arith);
    }
}

/// The values of the gaps, from `base`, increase, and lie at or above `base`.
pub proof fn lemma_elems_sorted(gs: Seq<nat>, base: nat)
    ensures
        elems_of(gs, base).len() == gs.len(),
        forall|i: int, j: int|
            0 <= i < j < gs.len() ==> #[trigger] elems_of(gs, base)[i] < #[trigger] elems_of(gs, base)[j],
        forall|i: int| 0 <= i < gs.len() ==> #[trigger] elems_of(gs, base)[i] >= base,
    decreases gs.len(),
{
    if gs.len() > 0 {
        lemma_elems_sorted(gs.drop_first(), base + gs[0] + 1);
        let r = elems_of(gs.drop_first(), base + gs[0] + 1);
        assert forall|i: int, j: int|
            0 <= i < j < gs.len() implies #[trigger] elems_of(gs, base)[i] < #[trigger] elems_of(gs, base)[j] by {
            if i > 0 {
                assert(elems_of(gs, base)[i] == r[i - 1]);
            }
            assert(elems_of(gs, base)[j] == r[j - 1]);
        }
        assert forall|i: int| 0 <= i < gs.len() implies #[trigger] elems_of(gs, base)[i] >= base by {
            if i > 0 {
                assert(elems_of(gs, base)[i] == r[i - 1]);
            }
        }
    }
}

/// `gap_has` tells whether `base + e` is among the values.
pub proof fn lemma_gap_has(gs: Seq<nat>, base: nat, e: int)
    requires
        e >= 0,
    ensures
        gap_has(gs, e) == elems_of(gs, base).contains((base + e) as nat),
    decreases gs.len(),
{
    if gs.len() > 0 {
        if e > gs[0] {
            lemma_gap_has(gs.drop_first(), base + gs[0] + 1, e - gs[0] - 1);
        }
        let r = elems_of(gs.drop_first(), base + gs[0] + 1);
        lemma_elems_sorted(gs.drop_first(), base + gs[0] + 1);
        if e < gs[0] {
            if elems_of(gs, base).contains((base + e) as nat) {
                let i = choose|i: int| 0 <= i < elems_of(gs, base).len() && elems_of(gs, base)[i] == (base + e) as nat;
                if i > 0 {
                    assert(r[i - 1] >= base + gs[0] + 1);
                }
            }
        } else if e > gs[0] {
            if elems_of(gs, base).contains((base + e) as nat) {
                let i = choose|i: int| 0 <= i < elems_of(gs, base).len() && elems_of(gs, base)[i] == (base + e) as nat;
                assert(i > 0);
                assert(r[i - 1] == (base + e) as nat);
            }
            if r.contains((base + e) as nat) {
                let i = choose|i: int| 0 <= i < r.len() && r[i] == (base + e) as nat;
                assert(elems_of(gs, base)[i + 1] == r[i]);
            }
        } else {
            assert(elems_of(gs, base)[0] == (base + e) as nat);
        }
    }
}

/// Adding a value that is not among the gaps' values adds it to the values.
pub proof fn lemma_gaps_insert(gs: Seq<nat>, base: nat, e: nat)
    requires
        !gap_has(gs, e as int),
    ensures
        elems_of(gaps_insert(gs, e), base).to_set() == elems_of(gs, base).to_set().insert(base + e),
        gaps_insert(gs, e).len() == gs.len() + 1,
    decreases gs.len(),
{
    if gs.len() == 0 {
        assert(seq![e].drop_first() =~= Seq::<nat>::empty());
        assert(gaps_insert(gs, e) == seq![e]);
        assert(elems_of(Seq::<nat>::empty(), base + e + 1) == Seq::<nat>::empty());
        let s1 = seq![e];
        assert(s1[0] == e);
        assert(elems_of(s1, base) == seq![base + e] + elems_of(s1.drop_first(), base + e + 1));
        assert(elems_of(gaps_insert(gs, e), base) =~= seq![base + e]);
        assert(elems_of(gs, base) == Seq::<nat>::empty());
        let one = seq![base + e];
        assert(one.to_set() =~= Set::<nat>::empty().insert(base + e)) by {
            assert forall|x: nat| one.to_set().contains(x) <==> x == base + e by {
                if x == base + e {
                    assert(one[0] == x);
                }
            }
        }
        assert(Seq::<nat>::empty().to_set() =~= Set::<nat>::empty());
        assert(elems_of(gaps_insert(gs, e), base).to_set() =~= elems_of(gs, base).to_set().insert(base + e));
    } else if e < gs[0] {
        let ng = gaps_insert(gs, e);
        let rest = gs.drop_first();
        assert(ng.drop_first().drop_first() =~= rest);
        assert(ng.drop_first() =~= seq![(gs[0] - e - 1) as nat] + rest);
        let a = elems_of(ng, base);
        let b = elems_of(gs, base);
        assert(a =~= seq![base + e] + b) by {
            assert(elems_of(ng.drop_first(), base + e + 1) =~= seq![base + gs[0]] + elems_of(rest, base + gs[0] + 1));
        }
        assert(a.to_set() =~= b.to_set().insert(base + e)) by {
            assert forall|x: nat| a.to_set().contains(x) <==> b.to_set().insert(base + e).contains(x) by {
                if a.contains(x) {
                    let i = choose|i: int| 0 <= i < a.len() && a[i] == x;
                    if i > 0 {
                        assert(b[i - 1] == x);
                    }
                }
                if b.contains(x) {
                    let i = choose|i: int| 0 <= i < b.len() && b[i] == x;
                    assert(a[i + 1] == x);
                }
                if x == base + e {
                    assert(a[0] == x);
                }
            }
        }
    } else {
        let rest = gs.drop_first();
        let e2 = (e - gs[0] - 1) as nat;
        lemma_gaps_insert(rest, base + gs[0] + 1, e2);
        let ng = gaps_insert(gs, e);
        assert(ng == seq![gs[0]] + gaps_insert(rest, e2));
        assert(ng[0] == gs[0]);
        assert(ng.drop_first() =~= gaps_insert(rest, e2));
        let a = elems_of(ng, base);
        let b = elems_of(gs, base);
        let ar = elems_of(gaps_insert(rest, e2), base + gs[0] + 1);
        let br = elems_of(rest, base + gs[0] + 1);
        assert(a =~= seq![base + gs[0]] + ar);
        assert(b =~= seq![base + gs[0]] + br);
        assert(a.to_set() =~= b.to_set().insert(base + e)) by {
            assert forall|x: nat| a.to_set().contains(x) <==> b.to_set().insert(base + e).contains(x) by {
                if a.contains(x) {
                    let i = choose|i: int| 0 <= i < a.len() && a[i] == x;
                    if i > 0 {
                        assert(ar[i - 1] == x);
                        assert(ar.to_set().contains(x));
                        if x != base + e {
                            assert(br.to_set().contains(x));
                            let j = choose|j: int| 0 <= j < br.len() && br[j] == x;
                            assert(b[j + 1] == x);
                        }
                    } else {
                        assert(b[0] == x);
                    }
                }
                if b.contains(x) {
                    let i = choose|i: int| 0 <= i < b.len() && b[i] == x;
                    if i > 0 {
                        assert(br[i - 1] == x);
                        assert(br.to_set().contains(x));
                        assert(ar.to_set().contains(x));
                        let j = choose|j: int| 0 <= j < ar.len() && ar[j] == x;
                        assert(a[j + 1] == x);
                    } else {
                        assert(a[0] == x);
                    }
                }
                if x == base + e {
                    assert(ar.to_set().contains(x));
                    let j = choose|j: int| 0 <= j < ar.len() && ar[j] == x;
                    assert(a[j + 1] == x);
                }
            }
        }
    }
}

/// The sum of the widths grows by the width appended.
pub proof fn lemma_wsum_push(ws: Seq<nat>, w: nat)
    ensures
        wsum(ws.push(w)) == wsum(ws) + w,
    decreases ws.len(),
{
    if ws.len() == 0 {
        assert(ws.push(w).drop_first() =~= Seq::<nat>::empty());
        assert(ws.push(w)[0] == w);
        assert(wsum(ws.push(w)) == w + wsum(ws.push(w).drop_first()));
    } else {
        assert(ws.push(w).drop_first() =~= ws.drop_first().push(w));
        assert(ws.push(w)[0] == ws[0]);
        lemma_wsum_push(ws.drop_first(), w);
    }
}

/// The widths of a set of one to seven values sum to 61, each between 7
/// and 61.
pub proof fn lemma_widths(sz: nat)
    requires
        1 <= sz <= 7,
    ensures
        wsum(widths(sz)) == 61,
        widths(sz).len() == sz,
        forall|i: int| 0 <= i < sz ==> 7 <= #[trigger] widths(sz)[i] <= 61,
{
    let ws = widths(sz);
    lemma_widths_prefix(sz, sz as int);
    assert(ws.take(sz as int) =~= ws);
    assert(sz == 1 || sz == 2 || sz == 3 || sz == 4 || sz == 5 || sz == 6 || sz == 7);
    assert(split_width(sz, 0) + (sz - 1) * split_width(sz, 1) == 61);
}

/// The widths of the first `k` gaps of a set of `sz` values sum to the
/// first width and `k - 1` times the next.
proof fn lemma_widths_prefix(sz: nat, k: int)
    requires
        1 <= sz <= 7,
        0 <= k <= sz,
    ensures
        wsum(widths(sz).take(k)) == if k == 0 {
            0
        } else {
            split_width(sz, 0) + (k - 1) * split_width(sz, 1)
        },
    decreases k,
{
    let ws = widths(sz);
    if k == 0 {
        assert(ws.take(0) =~= Seq::<nat>::empty());
    } else {
        lemma_widths_prefix(sz, k - 1);
        assert(ws.take(k) =~= ws.take(k - 1).push(ws[k - 1]));
        lemma_wsum_push(ws.take(k - 1), ws[k - 1]);
        let a = split_width(sz, 0);
        let b = split_width(sz, 1);
        if k == 1 {
            assert(ws[0] == a);
            assert((k - 1) * b == 0);
        } else {
            assert(ws[k - 1] == b);
            assert(a + (k - 2) * b + b == a + (k - 1) * b) by (nonlinear_arith);
        }
    }
}

/// Each gap that `bits` holds is below the power of two of its width.
pub proof fn lemma_gaps_bound(bits: nat, ws: Seq<nat>)
    ensures
        gaps_of(bits, ws).len() == ws.len(),
        forall|j: int| 0 <= j < ws.len() ==> #[trigger] gaps_of(bits, ws)[j] < pow2(ws[j]),
    decreases ws.len(),
{
    if ws.len() > 0 {
        lemma_gaps_bound(bits / pow2(ws[0]), ws.drop_first());
        lemma_pow2_pos(ws[0]);
        let g = gaps_of(bits, ws);
        assert forall|j: int| 0 <= j < ws.len() implies #[trigger] g[j] < pow2(ws[j]) by {
            if j > 0 {
                assert(g[j] == gaps_of(bits / pow2(ws[0]), ws.drop_first())[j - 1]);
            }
        }
    }
}

/// Values of gaps below `2^61 + 1` each, counted from `base`, stay below
/// `base` plus the number of gaps times `2^61 + 1`.
pub proof fn lemma_elems_bound(gs: Seq<nat>, base: nat)
    requires
        forall|j: int| 0 <= j < gs.len() ==> #[trigger] gs[j] <= 0x2000_0000_0000_0000,
    ensures
        forall|i: int|
            0 <= i < gs.len() ==> #[trigger] elems_of(gs, base)[i] < base + (i + 1)
                * 0x2000_0000_0000_0001,
    decreases gs.len(),
{
    if gs.len() > 0 {
        assert forall|j: int| 0 <= j < gs.drop_first().len() implies #[trigger] gs.drop_first()[j]
            <= 0x2000_0000_0000_0000 by {
            assert(gs.drop_first()[j] == gs[j + 1]);
        }
        lemma_elems_bound(gs.drop_first(), base + gs[0] + 1);
        lemma_elems_sorted(gs.drop_first(), base + gs[0] + 1);
        lemma_elems_sorted(gs, base);
        assert forall|i: int| 0 <= i < gs.len() implies #[trigger] elems_of(gs, base)[i] < base + (i + 1)
            * 0x2000_0000_0000_0001 by {
            if i > 0 {
                assert(elems_of(gs, base)[i] == elems_of(gs.drop_first(), base + gs[0] + 1)[i - 1]);
            }
        }
    }
}

/// The width of gap `i` of a set of `sz` values.
pub fn width(sz: u8, i: u8) -> (r: u64)
    requires
        1 <= sz <= 7,
    ensures
        r == split_width(sz as nat, i as nat),
{
    match sz {
        1 => 61,
        2 => if i == 0 { 40 } else { 21 },
        3 => if i == 0 { 31 } else { 15 },
        4 => if i == 0 { 25 } else { 12 },
        5 => if i == 0 { 21 } else { 10 },
        6 => if i == 0 { 21 } else { 8 },
        _ => if i == 0 { 19 } else { 7 },
    }
}

/// Whether `e` is among the values of the gaps that `cur` holds in the
/// fields of a set of `sz` values from field `i` on.
fn scan(cur: u64, sz: u8, i: u8, e: u64) -> (r: bool)
    requires
        1 <= sz <= 7,
        i <= sz,
    ensures
        r == gap_has(gaps_of(cur as nat, widths(sz as nat).skip(i as int)), e as int),
{
    let ghost ws = widths(sz as nat);
    let mut c = cur;
    let mut x = e;
    let mut j = i;
    proof {
        lemma_widths(sz as nat);
    }
    while j < sz
        invariant
            1 <= sz <= 7,
            i <= j <= sz,
            ws == widths(sz as nat),
            ws.len() == sz,
            forall|q: int| 0 <= q < sz ==> 7 <= #[trigger] ws[q] <= 61,
            gap_has(gaps_of(c as nat, ws.skip(j as int)), x as int) == gap_has(
                gaps_of(cur as nat, ws.skip(i as int)),
                e as int,
            ),
        decreases sz - j,
    {
        let b = width(sz, j);
        proof {
            assert(ws[j as int] == b);
            vstd::bits::lemma_u64_low_bits_mask_is_mod(c, b as nat);
            vstd::bits::lemma_u64_shr_is_div(c, b);
            vstd::bits::lemma_u64_pow2_no_overflow(b as nat);
            let wj = ws.skip(j as int);
            assert(wj[0] == b);
            assert(wj.drop_first() =~= ws.skip(j + 1));
            let g = gaps_of(c as nat, wj);
            assert(g == seq![(c as nat) % pow2(b as nat)] + gaps_of((c as nat) / pow2(b as nat), ws.skip(j + 1)));
            assert(g[0] == (c as nat) % pow2(b as nat));
            assert(g.drop_first() =~= gaps_of((c as nat) / pow2(b as nat), ws.skip(j + 1)));
        }
        let n = c & mask(b as usize);
        if x == n {
            return true;
        } else if x < n {
            return false;
        }
        x -= n + 1;
        c = c >> b;
        j += 1;
    }
    proof {
        assert(ws.skip(sz as int) =~= Seq::<nat>::empty());
    }
    false
}

/// A set of one to seven values, packed as the gaps between them.
#[derive(Debug, Clone, Copy, PartialEq, Eq, Structural)]
pub struct Tiny {
    sz: u8,
    bits: u64,
}

impl Tiny {
    /// The number of values.
    pub closed spec fn size(&self) -> nat {
        self.sz as nat
    }

    /// The gaps of the set.
    pub closed spec fn gaps(&self) -> Seq<nat> {
        gaps_of(self.bits as nat, widths(self.sz as nat))
    }

    /// The values, in increasing order.
    pub closed spec fn elems(&self) -> Seq<nat> {
        elems_of(self.gaps(), 0)
    }

    /// One to seven values, in the 61 bits that the widths fill.
    pub closed spec fn wf(&self) -> bool {
        &&& 1 <= self.sz <= 7
        &&& self.bits < pow2(61)
    }

    proof fn lemma_elems(&self)
        requires
            self.wf(),
        ensures
            self.elems().len() == self.sz,
            self.gaps().len() == self.sz,
            forall|i: int, j: int|
                0 <= i < j < self.sz ==> #[trigger] self.elems()[i] < #[trigger] self.elems()[j],
            forall|i: int| 0 <= i < self.sz ==> #[trigger] self.elems()[i] <= u64::MAX,
            forall|i: int| 0 <= i < self.sz ==> #[trigger] self.gaps()[i] < pow2(widths(self.sz as nat)[i]),
    {
        lemma_widths(self.sz as nat);
        lemma_gaps_bound(self.bits as nat, widths(self.sz as nat));
        lemma_elems_sorted(self.gaps(), 0);
        vstd::arithmetic::power2::lemma2_to64_rest();
        assert forall|j: int| 0 <= j < self.gaps().len() implies #[trigger] self.gaps()[j] <= 0x2000_0000_0000_0000 by {
            let w = widths(self.sz as nat)[j];
            if w < 61 {
                lemma_pow2_strictly_increases(w, 61);
            }
        }
        lemma_elems_bound(self.gaps(), 0);
    }

    /// A set holds one to seven values.
    pub proof fn lemma_size(&self)
        requires
            self.wf(),
        ensures
            1 <= self.size() <= 7,
    {
    }

    /// The set has no other values than its elements, and as many.
    pub proof fn lemma_view(&self)
        requires
            self.wf(),
        ensures
            self@.finite(),
            self@.len() == self.size(),
            forall|i: int| 0 <= i < self.size() ==> self@.contains(#[trigger] self.elems()[i] as u64),
    {
        self.lemma_elems();
        let es = self.elems().map_values(|x: nat| x as u64);
        assert(self@ =~= es.to_set()) by {
            assert forall|x: u64| self@.contains(x) <==> es.to_set().contains(x) by {
                if self@.contains(x) {
                    let i = choose|i: int| 0 <= i < self.elems().len() && self.elems()[i] == x as nat;
                    assert(es[i] == x);
                }
                if es.to_set().contains(x) {
                    let i = choose|i: int| 0 <= i < es.len() && es[i] == x;
                    assert(self.elems()[i] == x as nat);
                }
            }
        }
        assert(es.no_duplicates()) by {
            assert forall|i: int, j: int| 0 <= i < es.len() && 0 <= j < es.len() && i != j implies es[i] != es[j] by {
                if i < j {
                    assert(self.elems()[i] < self.elems()[j]);
                } else {
                    assert(self.elems()[j] < self.elems()[i]);
                }
            }
        }
        es.unique_seq_to_set();
        assert forall|i: int| 0 <= i < self.size() implies self@.contains(#[trigger] self.elems()[i] as u64) by {
            assert(self.elems()[i] as u64 as nat == self.elems()[i]);
        }
    }

    /// The set of the single value `x`, if `x` has at most 61 bits.
    pub fn from_singleton(x: u64) -> (r: Option<Tiny>)
        ensures
            r is Some <==> bits_needed(x as nat) <= 61,
            r matches Some(t) ==> t.wf() && t.size() == 1 && t@ == set![x],
    {
        if log_2(x) > 61 {
            None
        } else {
            let t = Tiny { sz: 1, bits: x };
            proof {
                lemma_fits_width(x as nat, 61);
                let ws = widths(1);
                assert(ws =~= seq![61nat]);
                assert(ws.drop_first() =~= Seq::<nat>::empty());
                vstd::arithmetic::div_mod::lemma_small_mod(x as nat, pow2(61));
                assert(ws[0] == 61);
                assert(gaps_of((x as nat) / pow2(61), ws.drop_first()) == Seq::<nat>::empty());
                assert(t.gaps() == seq![(x as nat) % pow2(61)] + gaps_of((x as nat) / pow2(61), ws.drop_first()));
                assert(t.gaps() =~= seq![x as nat]);
                assert(seq![x as nat].drop_first() =~= Seq::<nat>::empty());
                assert(elems_of(Seq::<nat>::empty(), x as nat + 1) == Seq::<nat>::empty());
                assert(t.elems() =~= seq![x as nat]);
                assert(t@ =~= set![x]) by {
                    assert forall|y: u64| t@.contains(y) <==> y == x by {
                        if y == x {
                            assert(t.elems()[0] == x as nat);
                        }
                    }
                }
            }
            Some(t)
        }
    }

    /// Whether `e` is in the set.
    pub fn contains(self, e: u64) -> (r: bool)
        requires
            self.wf(),
        ensures
            r == self@.contains(e),
    {
        let r = scan(self.bits, self.sz, 0, e);
        proof {
            assert(widths(self.sz as nat).skip(0) =~= widths(self.sz as nat));
            lemma_gap_has(self.gaps(), 0, e as int);
        }
        r
    }

    /// The number of values.
    pub fn count(self) -> (r: usize)
        requires
            self.wf(),
        ensures
            r == self@.len(),
    {
        proof {
            self.lemma_view();
        }
        self.sz as usize
    }

    /// The values, in increasing order.
    pub fn elements(self) -> (r: Vec<u64>)
        requires
            self.wf(),
        ensures
            r@.len() == self.size(),
            forall|i: int| 0 <= i < r@.len() ==> r@[i] as nat == #[trigger] self.elems()[i],
            r@.to_set() == self@,
            increasing(r@),
    {
        proof {
            self.lemma_elems();
            lemma_widths(self.sz as nat);
        }
        let ghost ws = widths(self.sz as nat);
        let ghost es = self.elems();
        let mut out: Vec<u64> = Vec::with_capacity(self.sz as usize);
        let mut bits = self.bits;
        let mut last: u64 = 0;
        let mut i: u8 = 0;
        proof {
            assert(ws.skip(0) =~= ws);
            assert(es.skip(0) =~= es);
        }
        while i < self.sz
            invariant
                self.wf(),
                ws == widths(self.sz as nat),
                es == self.elems(),
                es.len() == self.sz,
                forall|q: int| 0 <= q < self.sz ==> #[trigger] es[q] <= u64::MAX,
                forall|q: int| 0 <= q < self.sz ==> 7 <= #[trigger] ws[q] <= 61,
                i <= self.sz,
                out@.len() == i,
                forall|q: int| 0 <= q < i ==> out@[q] as nat == #[trigger] es[q],
                i > 0 ==> last == es[i - 1],
                elems_of(gaps_of(bits as nat, ws.skip(i as int)), if i == 0 { 0 } else { (last + 1) as nat })
                    == es.skip(i as int),
            decreases self.sz - i,
        {
            let nbits = width(self.sz, i);
            proof {
                assert(ws[i as int] == nbits);
                vstd::bits::lemma_u64_low_bits_mask_is_mod(bits, nbits as nat);
                vstd::bits::lemma_u64_shr_is_div(bits, nbits);
                vstd::bits::lemma_u64_pow2_no_overflow(nbits as nat);
                let wi = ws.skip(i as int);
                assert(wi[0] == nbits);
                assert(wi.drop_first() =~= ws.skip(i + 1));
                let g = gaps_of(bits as nat, wi);
                assert(g == seq![(bits as nat) % pow2(nbits as nat)] + gaps_of((bits as nat) / pow2(nbits as nat), ws.skip(i + 1)));
                assert(g.drop_first() =~= gaps_of((bits as nat) / pow2(nbits as nat), ws.skip(i + 1)));
                assert(es.skip(i as int)[0] == es[i as int]);
                assert(es.skip(i as int).drop_first() =~= es.skip(i + 1));
            }
            let difference = bits & mask(nbits as usize);
            if i == 0 {
                last = difference;
            } else {
                last = last + 1 + difference;
            }
            out.push(last);
            bits = bits >> nbits;
            i += 1;
        }
        proof {
            assert(self@ =~= out@.to_set()) by {
                assert forall|x: u64| self@.contains(x) <==> out@.to_set().contains(x) by {
                    if self@.contains(x) {
                        let q = choose|q: int| 0 <= q < es.len() && es[q] == x as nat;
                        assert(out@[q] == x);
                    }
                    if out@.to_set().contains(x) {
                        let q = choose|q: int| 0 <= q < out@.len() && out@[q] == x;
                        assert(es[q] == x as nat);
                    }
                }
            }
            assert forall|p: int, q: int| 0 <= p < q < out@.len() implies out@[p] < out@[q] by {
                assert(es[p] < es[q]);
            }
        }
        out
    }

    /// The least value.
    pub fn min(self) -> (r: u64)
        requires
            self.wf(),
        ensures
            self@.contains(r),
            forall|x: u64| self@.contains(x) ==> r <= x,
    {
        let v = self.elements();
        proof {
            self.lemma_elems();
            assert(v@.to_set().contains(v@[0]));
            assert forall|x: u64| self@.contains(x) implies v@[0] <= x by {
                let q = choose|q: int| 0 <= q < v@.len() && v@[q] == x;
                if q > 0 {
                    assert(self.elems()[0] < self.elems()[q]);
                }
            }
        }
        v[0]
    }
}

impl View for Tiny {
    type V = Set<u64>;

    closed spec fn view(&self) -> Set<u64> {
        Set::new(|x: u64| self.elems().contains(x as nat))
    }
}

/// The gaps of the increasing values `v`, the first counted from `base`.
pub open spec fn gaps_from(v: Seq<u64>, base: nat) -> Seq<nat> {
    Seq::new(v.len(), |i: int| if i == 0 { (v[0] - base) as nat } else { (v[i] - v[i - 1] - 1) as nat })
}

/// The values are increasing.
pub open spec fn increasing(v: Seq<u64>) -> bool {
    forall|i: int, j: int| 0 <= i < j < v.len() ==> v[i] < v[j]
}

/// The gaps of increasing values give the values back.
pub proof fn lemma_gaps_from(v: Seq<u64>, base: nat)
    requires
        increasing(v),
        v.len() > 0 ==> base <= v[0],
    ensures
        elems_of(gaps_from(v, base), base) == v.map_values(|x: u64| x as nat),
    decreases v.len(),
{
    let g = gaps_from(v, base);
    if v.len() > 0 {
        let r = v.drop_first();
        assert(g.drop_first() =~= gaps_from(r, (v[0] + 1) as nat));
        lemma_gaps_from(r, (v[0] + 1) as nat);
        assert(elems_of(g, base) =~= v.map_values(|x: u64| x as nat)) by {
            let e = elems_of(g, base);
            let rr = elems_of(gaps_from(r, (v[0] + 1) as nat), (v[0] + 1) as nat);
            assert(e == seq![base + g[0]] + elems_of(g.drop_first(), base + g[0] + 1));
            assert(base + g[0] == v[0]);
            assert forall|i: int| 0 <= i < v.len() implies e[i] == v[i] as nat by {
                if i > 0 {
                    assert(e[i] == rr[i - 1]);
                    assert(rr[i - 1] == r[i - 1] as nat);
                }
            }
        }
    } else {
        assert(elems_of(g, base) =~= v.map_values(|x: u64| x as nat));
    }
}

/// `x | (y << o)` adds `y * 2^o` to an `x` below `2^o`.
pub proof fn lemma_or_add(x: u64, y: u64, o: u64)
    requires
        o < 64,
        x < pow2(o as nat),
        y * pow2(o as nat) <= u64::MAX,
    ensures
        (x | (y << o)) == x + y * pow2(o as nat),
{
    vstd::bits::lemma_u64_pow2_no_overflow(o as nat);
    vstd::bits::lemma_u64_shl_is_mul(1, o);
    vstd::bits::lemma_u64_shl_is_mul(y, o);
    assert((x | (y << o)) == x + (y << o)) by (bit_vector)
        requires
            o < 64,
            x < (1u64 << o),
    ;
}

impl Tiny {
    /// The set of the increasing values `v`, if there are one to seven of
    /// them and each gap fits its width.
    pub fn new_sorted_deduped(v: &[u64]) -> (r: Option<Tiny>)
        requires
            increasing(v@),
        ensures
            r is Some <==> 1 <= v@.len() <= 7 && gaps_fit(gaps_from(v@, 0), widths(v@.len())),
            r matches Some(t) ==> {
                &&& t.wf()
                &&& t.size() == v@.len()
                &&& t@ == v@.to_set()
                &&& t.elems() == v@.map_values(|x: u64| x as nat)
            },
    {
        if v.len() == 0 {
            return None;
        } else if v.len() > 7 {
            return None;
        }
        let sz = v.len() as u8;
        let ghost ws = widths(sz as nat);
        let ghost gs = gaps_from(v@, 0);
        proof {
            lemma_widths(sz as nat);
        }
        let mut last: u64 = 0;
        let mut offset: u64 = 0;
        let mut bits: u64 = 0;
        let mut i: u8 = 0;
        proof {
            assert(gs.take(0) =~= Seq::<nat>::empty());
            assert(ws.take(0) =~= Seq::<nat>::empty());
            lemma_widths_prefix(sz as nat, 0);
            vstd::arithmetic::power2::lemma2_to64();
        }
        while i < sz
            invariant
                1 <= sz <= 7,
                sz == v@.len(),
                increasing(v@),
                ws == widths(sz as nat),
                gs == gaps_from(v@, 0),
                wsum(ws) == 61,
                ws.len() == sz,
                forall|q: int| 0 <= q < sz ==> 7 <= #[trigger] ws[q] <= 61,
                i <= sz,
                offset == wsum(ws.take(i as int)),
                offset <= 61,
                (offset == 0) == (i == 0),
                i > 0 ==> last == v@[i - 1],
                forall|q: int| 0 <= q < i ==> bits_needed(#[trigger] gs[q]) <= ws[q],
                bits == enc(gs.take(i as int), ws.take(i as int)),
                bits < pow2(offset as nat),
            decreases sz - i,
        {
            let x = v[i as usize];
            let nbits = width(sz, i);
            proof {
                assert(ws[i as int] == nbits);
                lemma_widths_prefix(sz as nat, i + 1);
                lemma_widths_prefix(sz as nat, i as int);
                assert(ws.take(i + 1) =~= ws.take(i as int).push(ws[i as int]));
                lemma_wsum_push(ws.take(i as int), ws[i as int]);
                assert(wsum(ws.take(i + 1)) <= 61) by {
                    lemma_widths_prefix(sz as nat, sz as int);
                    assert(ws.take(sz as int) =~= ws);
                    let b = split_width(sz as nat, 1);
                    assert(i * b <= (sz - 1) * b) by (nonlinear_arith)
                        requires
                            i <= sz - 1,
                            b >= 0,
                    ;
                }
                if i > 0 {
                    assert(v@[i - 1] < v@[i as int]);
                }
            }
            let y = if offset == 0 {
                x
            } else {
                x - last - 1
            };
            assert(y == gs[i as int]);
            if log_2(y) > nbits {
                return None;
            }
            proof {
                lemma_fits_width(y as nat, nbits as nat);
                lemma_pow2_adds(offset as nat, nbits as nat);
                lemma_pow2_pos(offset as nat);
                vstd::arithmetic::power2::lemma2_to64_rest();
                if offset + nbits < 61 {
                    lemma_pow2_strictly_increases((offset + nbits) as nat, 61);
                }
                assert(y * pow2(offset as nat) < pow2(nbits as nat) * pow2(offset as nat)) by (nonlinear_arith)
                    requires
                        y < pow2(nbits as nat),
                        pow2(offset as nat) > 0,
                ;
                vstd::arithmetic::mul::lemma_mul_is_commutative(pow2(nbits as nat) as int, pow2(offset as nat) as int);
                assert(offset + nbits <= 61);
                assert(pow2((offset + nbits) as nat) <= pow2(61));
                assert(y * pow2(offset as nat) <= u64::MAX);
                lemma_or_add(bits, y, offset);
                assert(gs.take(i + 1) =~= gs.take(i as int).push(gs[i as int]));
                lemma_enc_push(gs.take(i as int), ws.take(i as int), gs[i as int], ws[i as int]);
                assert(bits + y * pow2(offset as nat) < pow2((offset + nbits) as nat)) by (nonlinear_arith)
                    requires
                        bits < pow2(offset as nat),
                        y < pow2(nbits as nat),
                        pow2((offset + nbits) as nat) == pow2(offset as nat) * pow2(nbits as nat),
                ;
            }
            bits = bits | (y << offset);
            offset += nbits;
            last = x;
            i += 1;
        }
        let t = Tiny { sz, bits };
        proof {
            assert(gs.take(sz as int) =~= gs);
            assert(ws.take(sz as int) =~= ws);
            assert forall|j: int| 0 <= j < gs.len() implies #[trigger] gs[j] < pow2(ws[j]) by {
                lemma_fits_width(gs[j], ws[j]);
            }
            lemma_gaps_enc(gs, ws);
            lemma_gaps_from(v@, 0);
            t.lemma_view();
            assert(t@ =~= v@.to_set()) by {
                assert forall|x: u64| t@.contains(x) <==> v@.to_set().contains(x) by {
                    if t@.contains(x) {
                        let q = choose|q: int| 0 <= q < t.elems().len() && t.elems()[q] == x as nat;
                        assert(v@[q] as nat == x as nat);
                    }
                    if v@.to_set().contains(x) {
                        let q = choose|q: int| 0 <= q < v@.len() && v@[q] == x;
                        assert(t.elems()[q] == x as nat);
                    }
                }
            }
        }
        Some(t)
    }
}

/// The widths of the first `k` gaps sum to at most 61, and one more gap
/// adds its width.
pub proof fn lemma_widths_take(sz: nat, k: int)
    requires
        1 <= sz <= 7,
        0 <= k <= sz,
    ensures
        wsum(widths(sz).take(k)) <= 61,
        k < sz ==> wsum(widths(sz).take(k + 1)) == wsum(widths(sz).take(k)) + widths(sz)[k],
{
    let ws = widths(sz);
    lemma_widths(sz);
    lemma_widths_prefix(sz, k);
    lemma_widths_prefix(sz, sz as int);
    assert(ws.take(sz as int) =~= ws);
    let b = split_width(sz, 1);
    if k > 0 {
        assert((k - 1) * b <= (sz - 1) * b) by (nonlinear_arith)
            requires
                k - 1 <= sz - 1,
                b >= 0,
        ;
    }
    if k < sz {
        assert(ws.take(k + 1) =~= ws.take(k).push(ws[k]));
        lemma_wsum_push(ws.take(k), ws[k]);
    }
}

/// Puts gap `g` into the field of width `nbits` at `offset`, after the
/// fields that `bits` fills.
fn put_gap(
    bits: u64,
    g: u64,
    offset: u64,
    nbits: u64,
    Ghost(s): Ghost<Seq<nat>>,
    Ghost(w): Ghost<Seq<nat>>,
    Ghost(k): Ghost<int>,
) -> (r: u64)
    requires
        s.len() == w.len(),
        0 <= k < s.len(),
        offset == wsum(w.take(k)),
        nbits == w[k],
        g == s[k],
        bits == enc(s.take(k), w.take(k)),
        bits < pow2(offset as nat),
        g < pow2(nbits as nat),
        offset + nbits <= 61,
    ensures
        r == enc(s.take(k + 1), w.take(k + 1)),
        r < pow2((offset + nbits) as nat),
{
    proof {
        lemma_pow2_adds(offset as nat, nbits as nat);
        lemma_pow2_pos(offset as nat);
        vstd::arithmetic::power2::lemma2_to64_rest();
        if offset + nbits < 61 {
            lemma_pow2_strictly_increases((offset + nbits) as nat, 61);
        }
        assert(g * pow2(offset as nat) < pow2(nbits as nat) * pow2(offset as nat)) by (nonlinear_arith)
            requires
                g < pow2(nbits as nat),
                pow2(offset as nat) > 0,
        ;
        vstd::arithmetic::mul::lemma_mul_is_commutative(pow2(nbits as nat) as int, pow2(offset as nat) as int);
        assert(g * pow2(offset as nat) <= u64::MAX);
        lemma_or_add(bits, g, offset);
        assert(s.take(k + 1) =~= s.take(k).push(s[k]));
        assert(w.take(k + 1) =~= w.take(k).push(w[k]));
        lemma_enc_push(s.take(k), w.take(k), s[k], w[k]);
        assert(bits + g * pow2(offset as nat) < pow2((offset + nbits) as nat)) by (nonlinear_arith)
            requires
                bits < pow2(offset as nat),
                g < pow2(nbits as nat),
                pow2((offset + nbits) as nat) == pow2(offset as nat) * pow2(nbits as nat),
        ;
    }
    bits | (g << offset)
}

/// The first gap, and the gaps of the fields after it.
proof fn lemma_gaps_unfold(bits: nat, ws: Seq<nat>)
    requires
        ws.len() > 0,
    ensures
        gaps_of(bits, ws).len() == ws.len(),
        gaps_of(bits, ws)[0] == bits % pow2(ws[0]),
        gaps_of(bits, ws).drop_first() == gaps_of(bits / pow2(ws[0]), ws.drop_first()),
{
    lemma_pow2_pos(ws[0]);
    lemma_gaps_bound(bits, ws);
    lemma_gaps_bound(bits / pow2(ws[0]), ws.drop_first());
    let g = gaps_of(bits, ws);
    let r = gaps_of(bits / pow2(ws[0]), ws.drop_first());
    assert forall|k: int| 0 <= k < r.len() implies g.drop_first()[k] == r[k] by {
        assert(g[k + 1] == r[k]);
    }
    assert(g.drop_first() =~= r);
}

/// One step of reading the gaps: the gap at field `i`, and how the
/// membership, the width checks and the insertion of `x` read at field `i`
/// follow from those at field `i + 1`.
proof fn lemma_step(gs: Seq<nat>, ow: Seq<nat>, nw: Seq<nat>, cur: u64, i: int, x: nat)
    requires
        gs.len() == ow.len(),
        nw.len() == ow.len() + 1,
        0 <= i < gs.len(),
        ow[i] < 64,
        gaps_of(cur as nat, ow.skip(i)) == gs.skip(i),
    ensures
        gs[i] == (cur as nat) % pow2(ow[i]),
        gaps_of((cur as nat) / pow2(ow[i]), ow.skip(i + 1)) == gs.skip(i + 1),
        gap_has(gs.skip(i), x as int) == (x == gs[i] || (x > gs[i] && gap_has(
            gs.skip(i + 1),
            x - gs[i] - 1,
        ))),
        x != gs[i] ==> ins_fits(gs.skip(i), nw.skip(i), x) == (bits_needed(gs[i]) <= nw[i] && (x
            < gs[i] ==> (bits_needed((gs[i] - x - 1) as nat) <= nw[i + 1] && gaps_fit(
            gs.skip(i + 1),
            nw.skip(i + 2),
        ))) && (x > gs[i] ==> ins_fits(gs.skip(i + 1), nw.skip(i + 1), (x - gs[i] - 1) as nat))),
        x < gs[i] ==> gaps_insert(gs.skip(i), x) == seq![x, (gs[i] - x - 1) as nat] + gs.skip(i + 1),
        x > gs[i] ==> gaps_insert(gs.skip(i), x) == seq![gs[i]] + gaps_insert(
            gs.skip(i + 1),
            (x - gs[i] - 1) as nat,
        ),
{
    let wi = ow.skip(i);
    lemma_gaps_unfold(cur as nat, wi);
    assert(wi[0] == ow[i]);
    assert(wi.drop_first() =~= ow.skip(i + 1));
    assert(gs.skip(i)[0] == gs[i]);
    assert(gs.skip(i).drop_first() =~= gs.skip(i + 1));
    assert(nw.skip(i).drop_first() =~= nw.skip(i + 1));
    assert(nw.skip(i).skip(2) =~= nw.skip(i + 2));
    assert(nw.skip(i)[0] == nw[i]);
    assert(nw.skip(i)[1] == nw[i + 1]);
}

/// Copies the gaps of fields `k` on of the old layout into fields `k + 1`
/// on of the new one, after the fields that `new_bits` fills; `None` when
/// a gap does not fit its new width.
fn copy_tail(
    cur: u64,
    k: u8,
    sz: u8,
    new_bits: u64,
    offset: u64,
    Ghost(gs): Ghost<Seq<nat>>,
    Ghost(ng): Ghost<Seq<nat>>,
) -> (r: Option<u64>)
    requires
        1 <= sz < 7,
        1 <= k <= sz,
        gs.len() == sz,
        ng.len() == sz + 1,
        forall|q: int| k <= q < sz ==> ng[q + 1] == #[trigger] gs[q],
        gaps_of(cur as nat, widths(sz as nat).skip(k as int)) == gs.skip(k as int),
        offset == wsum(widths((sz + 1) as nat).take(k + 1)),
        new_bits == enc(ng.take(k + 1), widths((sz + 1) as nat).take(k + 1)),
        new_bits < pow2(offset as nat),
        forall|q: int| 0 <= q <= k ==> #[trigger] ng[q] < pow2(widths((sz + 1) as nat)[q]),
    ensures
        r is Some <==> (forall|q: int| k <= q < sz ==> bits_needed(#[trigger] gs[q]) <= widths(
            (sz + 1) as nat,
        )[q + 1]),
        r matches Some(b) ==> {
            &&& b == enc(ng, widths((sz + 1) as nat))
            &&& b < pow2(61)
            &&& forall|q: int| 0 <= q < ng.len() ==> #[trigger] ng[q] < pow2(widths((sz + 1) as nat)[q])
        },
{
    let ghost ow = widths(sz as nat);
    let ghost nw = widths((sz + 1) as nat);
    proof {
        lemma_widths(sz as nat);
        lemma_widths((sz + 1) as nat);
    }
    let mut cur = cur;
    let mut new_bits = new_bits;
    let mut offset = offset;
    let mut j = k;
    while j < sz
        invariant
            1 <= sz < 7,
            k <= j <= sz,
            ow == widths(sz as nat),
            nw == widths((sz + 1) as nat),
            ow.len() == sz,
            nw.len() == sz + 1,
            gs.len() == sz,
            ng.len() == sz + 1,
            forall|q: int| 0 <= q < sz ==> 7 <= #[trigger] ow[q] <= 61,
            forall|q: int| 0 <= q < sz + 1 ==> 7 <= #[trigger] nw[q] <= 61,
            forall|q: int| k <= q < sz ==> ng[q + 1] == #[trigger] gs[q],
            forall|q: int| k <= q < j ==> bits_needed(#[trigger] gs[q]) <= nw[q + 1],
            gaps_of(cur as nat, ow.skip(j as int)) == gs.skip(j as int),
            offset == wsum(nw.take(j + 1)),
            new_bits == enc(ng.take(j + 1), nw.take(j + 1)),
            new_bits < pow2(offset as nat),
            forall|q: int| 0 <= q <= j ==> #[trigger] ng[q] < pow2(nw[q]),
        decreases sz - j,
    {
        let oldb = width(sz, j);
        let newb = width(sz + 1, j + 1);
        proof {
            assert(ow[j as int] == oldb);
            assert(nw[j + 1] == newb);
            vstd::bits::lemma_u64_low_bits_mask_is_mod(cur, oldb as nat);
            vstd::bits::lemma_u64_shr_is_div(cur, oldb);
            vstd::bits::lemma_u64_pow2_no_overflow(oldb as nat);
            lemma_step(gs, ow, nw, cur, j as int, 0);
            lemma_widths_take((sz + 1) as nat, j + 1);
            lemma_widths_take((sz + 1) as nat, j + 2);
            assert(ng[j + 1] == gs[j as int]);
        }
        let n = cur & mask(oldb as usize);
        if log_2(n) > newb {
            return None;
        }
        proof {
            lemma_fits_width(n as nat, newb as nat);
        }
        new_bits = put_gap(new_bits, n, offset, newb, Ghost(ng), Ghost(nw), Ghost(j + 1));
        cur = cur >> oldb;
        offset += newb;
        j += 1;
    }
    proof {
        assert(ng.take(sz + 1) =~= ng);
        assert(nw.take(sz + 1) =~= nw);
        lemma_widths_take((sz + 1) as nat, sz + 1);
        assert(nw.take(sz + 1) == nw);
        lemma_widths((sz + 1) as nat);
        vstd::arithmetic::power2::lemma2_to64_rest();
    }
    Some(new_bits)
}

impl Tiny {
    /// The set of one more value whose gaps `ng`, in the widths of that
    /// size, `bits` holds.
    proof fn lemma_grown(&self, bits: u64, ng: Seq<nat>, e: u64)
        requires
            self.wf(),
            self.sz < 7,
            !gap_has(self.gaps(), e as int),
            ng == gaps_insert(self.gaps(), e as nat),
            bits == enc(ng, widths((self.sz + 1) as nat)),
            forall|q: int| 0 <= q < ng.len() ==> #[trigger] ng[q] < pow2(widths((self.sz + 1) as nat)[q]),
        ensures
            ({
                let t = Tiny { sz: (self.sz + 1) as u8, bits };
                &&& t.wf()
                &&& t.size() == self.size() + 1
                &&& t@ == self@.insert(e)
                &&& t.gaps() == ng
            }),
    {
        let t = Tiny { sz: (self.sz + 1) as u8, bits };
        lemma_widths((self.sz + 1) as nat);
        self.lemma_elems();
        lemma_gaps_insert(self.gaps(), 0, e as nat);
        lemma_gaps_enc(ng, widths((self.sz + 1) as nat));
        vstd::arithmetic::power2::lemma2_to64_rest();
        assert(t.gaps() == ng);
        assert(t.wf());
        t.lemma_elems();
        assert(t@ =~= self@.insert(e)) by {
            assert forall|y: u64| t@.contains(y) <==> self@.insert(e).contains(y) by {
                assert(elems_of(ng, 0).to_set().contains(y as nat) == elems_of(self.gaps(), 0).to_set().insert(e as nat).contains(y as nat));
                if elems_of(ng, 0).contains(y as nat) {
                    assert(elems_of(ng, 0).to_set().contains(y as nat));
                }
                if elems_of(self.gaps(), 0).contains(y as nat) {
                    assert(elems_of(self.gaps(), 0).to_set().contains(y as nat));
                }
            }
        }
    }

    /// The rest of an insertion whose value `x`, counted from the end of
    /// the gaps before field `i`, falls inside gap `n` of field `i`.
    #[verifier::rlimit(40)]
    fn insert_here(self, e: u64, cur: u64, i: u8, x: u64, n: u64, new_bits: u64, offset: u64) -> (r: Option<Tiny>)
        requires
            self.wf(),
            self.sz < 7,
            i < self.sz,
            gaps_of(cur as nat, widths(self.sz as nat).skip(i as int)) == self.gaps().skip(i as int),
            n == self.gaps()[i as int],
            x < n,
            bits_needed(n as nat) <= widths((self.sz + 1) as nat)[i as int],
            !gap_has(self.gaps(), e as int),
            ins_fits(self.gaps(), widths((self.sz + 1) as nat), e as nat) == ins_fits(
                self.gaps().skip(i as int),
                widths((self.sz + 1) as nat).skip(i as int),
                x as nat,
            ),
            gaps_insert(self.gaps(), e as nat) == self.gaps().take(i as int) + gaps_insert(
                self.gaps().skip(i as int),
                x as nat,
            ),
            offset == wsum(widths((self.sz + 1) as nat).take(i as int)),
            new_bits == enc(self.gaps().take(i as int), widths((self.sz + 1) as nat).take(i as int)),
            new_bits < pow2(offset as nat),
            forall|q: int| 0 <= q < i ==> #[trigger] self.gaps()[q] < pow2(widths((self.sz + 1) as nat)[q]),
        ensures
            ins_fits(self.gaps(), widths(self.size() + 1), e as nat) ==> (r matches Some(t) && t.wf()
                && t.size() == self.size() + 1 && t@ == self@.insert(e) && t.gaps() == gaps_insert(
                self.gaps(),
                e as nat,
            )),
            !ins_fits(self.gaps(), widths(self.size() + 1), e as nat) ==> r is None,
    {
        let sz = self.sz;
        let ghost gs = self.gaps();
        let ghost ow = widths(sz as nat);
        let ghost nw = widths((sz + 1) as nat);
        let ghost ng = gaps_insert(gs, e as nat);
        let oldb = width(sz, i);
        let newb = width(sz + 1, i);
        proof {
            lemma_widths(sz as nat);
            lemma_widths((sz + 1) as nat);
            self.lemma_elems();
            assert(ow[i as int] == oldb);
            assert(nw[i as int] == newb);
            vstd::bits::lemma_u64_shr_is_div(cur, oldb);
            lemma_step(gs, ow, nw, cur, i as int, x as nat);
            lemma_widths_take((sz + 1) as nat, i as int);
            lemma_widths_take((sz + 1) as nat, i + 1);
            lemma_fits_width(x as nat, newb as nat);
            lemma_fits_width(n as nat, newb as nat);
            assert(ng == gs.take(i as int) + (seq![x as nat, (n - x - 1) as nat] + gs.skip(i + 1)));
            assert(ng.len() == sz + 1);
            assert(ng[i as int] == x as nat);
            assert(ng[i + 1] == (n - x - 1) as nat);
            assert(ng.take(i as int) =~= gs.take(i as int));
            assert forall|q: int| i + 1 <= q < sz implies ng[q + 1] == #[trigger] gs[q] by {
                assert(ng[q + 1] == gs.skip(i + 1)[q - i - 1]);
            }
            assert forall|q: int| 0 <= q < i implies #[trigger] ng[q] < pow2(nw[q]) by {
                assert(ng[q] == gs[q]);
            }
        }
        let new_bits = put_gap(new_bits, x, offset, newb, Ghost(ng), Ghost(nw), Ghost(i as int));
        let offset = offset + newb;
        let m = n - x - 1;
        let newb2 = width(sz + 1, i + 1);
        proof {
            assert(nw[i + 1] == newb2);
        }
        if log_2(m) > newb2 {
            return None;
        }
        proof {
            lemma_fits_width(m as nat, newb2 as nat);
            lemma_widths_take((sz + 1) as nat, i + 2);
        }
        let new_bits = put_gap(new_bits, m, offset, newb2, Ghost(ng), Ghost(nw), Ghost(i + 1));
        let offset = offset + newb2;
        let tail = copy_tail(cur >> oldb, i + 1, sz, new_bits, offset, Ghost(gs), Ghost(ng));
        proof {
            assert(gaps_fit(gs.skip(i + 1), nw.skip(i + 2)) == (forall|q: int| i + 1 <= q < sz ==> bits_needed(#[trigger] gs[q]) <= nw[q + 1])) by {
                if gaps_fit(gs.skip(i + 1), nw.skip(i + 2)) {
                    assert forall|q: int| i + 1 <= q < sz implies bits_needed(#[trigger] gs[q]) <= nw[q + 1] by {
                        assert(gs.skip(i + 1)[q - i - 1] == gs[q]);
                        assert(nw.skip(i + 2)[q - i - 1] == nw[q + 1]);
                    }
                }
                if forall|q: int| i + 1 <= q < sz ==> bits_needed(#[trigger] gs[q]) <= nw[q + 1] {
                    assert forall|j: int| 0 <= j < gs.skip(i + 1).len() implies bits_needed(#[trigger] gs.skip(i + 1)[j]) <= nw.skip(i + 2)[j] by {
                        assert(gs.skip(i + 1)[j] == gs[j + i + 1]);
                        assert(nw.skip(i + 2)[j] == nw[j + i + 2]);
                    }
                }
            }
        }
        match tail {
            Some(b) => {
                proof {
                    self.lemma_grown(b, ng, e);
                }
                Some(Tiny { sz: sz + 1, bits: b })
            },
            None => None,
        }
    }

    /// The set with `e` added: itself if `e` is present; if not, the set
    /// of one more value when each gap passes the width checks of the
    /// insertion (see `ins_fits`), and `None` otherwise or when the set is
    /// full.
    #[verifier::rlimit(60)]
    pub fn insert(self, e: u64) -> (r: Option<Tiny>)
        requires
            self.wf(),
        ensures
            self@.contains(e) ==> r == Some(self),
            !self@.contains(e) && self.size() < 7 && ins_fits(self.gaps(), widths(self.size() + 1), e as nat)
                ==> (r matches Some(t) && t.wf() && t.size() == self.size() + 1 && t@ == self@.insert(e)
                && t.gaps() == gaps_insert(self.gaps(), e as nat)),
            !self@.contains(e) && !(self.size() < 7 && ins_fits(
                self.gaps(),
                widths(self.size() + 1),
                e as nat,
            )) ==> r is None,
    {
        proof {
            lemma_gap_has(self.gaps(), 0, e as int);
            self.lemma_elems();
        }
        if self.sz >= 7 {
            if self.contains(e) {
                return Some(self);
            } else {
                return None;
            }
        }
        let sz = self.sz;
        let ghost gs = self.gaps();
        let ghost ow = widths(sz as nat);
        let ghost nw = widths((sz + 1) as nat);
        let ghost present = gap_has(gs, e as int);
        let ghost fits = ins_fits(gs, nw, e as nat);
        let ghost ng = gaps_insert(gs, e as nat);
        proof {
            lemma_widths(sz as nat);
            lemma_widths((sz + 1) as nat);
            assert(gs.skip(0) =~= gs);
            assert(nw.skip(0) =~= nw);
            assert(ow.skip(0) =~= ow);
            assert(gs.take(0) =~= Seq::<nat>::empty());
            assert(nw.take(0) =~= Seq::<nat>::empty());
            assert(gs.take(0) + gaps_insert(gs.skip(0), e as nat) =~= ng);
            lemma_widths_take((sz + 1) as nat, 0);
            vstd::arithmetic::power2::lemma2_to64();
            assert(self.size() + 1 == (sz + 1) as nat);
            assert(self@.contains(e) == self.elems().contains(e as nat));
        }
        let mut cur = self.bits;
        let mut x = e;
        let mut new_bits: u64 = 0;
        let mut offset: u64 = 0;
        let mut i: u8 = 0;
        while i < sz
            invariant
                1 <= sz < 7,
                sz == self.sz,
                self.wf(),
                gs == self.gaps(),
                gs.len() == sz,
                ow == widths(sz as nat),
                nw == widths((sz + 1) as nat),
                ow.len() == sz,
                nw.len() == sz + 1,
                forall|q: int| 0 <= q < sz ==> 7 <= #[trigger] ow[q] <= 61,
                forall|q: int| 0 <= q < sz + 1 ==> 7 <= #[trigger] nw[q] <= 61,
                present == gap_has(gs, e as int),
                present == self@.contains(e),
                fits == ins_fits(gs, nw, e as nat),
                fits == ins_fits(self.gaps(), widths(self.size() + 1), e as nat),
                ng == gaps_insert(gs, e as nat),
                i <= sz,
                gaps_of(cur as nat, ow.skip(i as int)) == gs.skip(i as int),
                present == gap_has(gs.skip(i as int), x as int),
                !present ==> fits == ins_fits(gs.skip(i as int), nw.skip(i as int), x as nat),
                !present ==> ng == gs.take(i as int) + gaps_insert(gs.skip(i as int), x as nat),
                offset == wsum(nw.take(i as int)),
                new_bits == enc(gs.take(i as int), nw.take(i as int)),
                new_bits < pow2(offset as nat),
                forall|q: int| 0 <= q < i ==> #[trigger] gs[q] < pow2(nw[q]),
            decreases sz - i,
        {
            let oldb = width(sz, i);
            let newb = width(sz + 1, i);
            proof {
                assert(ow[i as int] == oldb);
                assert(nw[i as int] == newb);
                vstd::bits::lemma_u64_low_bits_mask_is_mod(cur, oldb as nat);
                vstd::bits::lemma_u64_shr_is_div(cur, oldb);
                vstd::bits::lemma_u64_pow2_no_overflow(oldb as nat);
                lemma_step(gs, ow, nw, cur, i as int, x as nat);
                lemma_widths_take((sz + 1) as nat, i as int);
                lemma_widths_take((sz + 1) as nat, i + 1);
            }
            let n = cur & mask(oldb as usize);
            if x == n {
                return Some(self);
            } else if log_2(n) > newb {
                if x < n {
                    return None;
                }
                let found = scan(cur >> oldb, sz, i + 1, x - (n + 1));
                if found {
                    return Some(self);
                } else {
                    return None;
                }
            } else if x < n {
                return self.insert_here(e, cur, i, x, n, new_bits, offset);
            }
            let ghost gz = gs.push(0);
            proof {
                lemma_fits_width(n as nat, newb as nat);
                assert(gs.take(i + 1) =~= gs.take(i as int).push(gs[i as int]));
                assert(gs.take(i as int) + (seq![n as nat] + gaps_insert(gs.skip(i + 1), (x - n - 1) as nat))
                    =~= gs.take(i + 1) + gaps_insert(gs.skip(i + 1), (x - n - 1) as nat));
                assert(gz.take(i as int) =~= gs.take(i as int));
                assert(gz.take(i + 1) =~= gs.take(i + 1));
                assert(gz[i as int] == gs[i as int]);
            }
            new_bits = put_gap(new_bits, n, offset, newb, Ghost(gz), Ghost(nw), Ghost(i as int));
            x -= n + 1;
            offset += newb;
            cur = cur >> oldb;
            i += 1;
        }
        let newb = width(sz + 1, sz);
        proof {
            assert(gs.skip(sz as int) =~= Seq::<nat>::empty());
            assert(nw.skip(sz as int) =~= seq![nw[sz as int]]);
            assert(nw[sz as int] == newb);
            lemma_widths_take((sz + 1) as nat, sz as int);
            lemma_widths_take((sz + 1) as nat, sz + 1);
        }
        if log_2(x) > newb {
            return None;
        }
        proof {
            lemma_fits_width(x as nat, newb as nat);
            assert(gaps_insert(Seq::<nat>::empty(), x as nat) == seq![x as nat]);
            assert(gs.take(sz as int) =~= gs);
            assert(ng =~= gs.push(x as nat));
            assert(ng.take(sz as int) =~= gs);
            assert forall|q: int| 0 <= q <= sz implies #[trigger] ng[q] < pow2(nw[q]) by {
                if q < sz {
                    assert(ng[q] == gs[q]);
                }
            }
        }
        let b = put_gap(new_bits, x, offset, newb, Ghost(ng), Ghost(nw), Ghost(sz as int));
        proof {
            assert(ng.take(sz + 1) =~= ng);
            assert(nw.take(sz + 1) =~= nw);
            self.lemma_grown(b, ng, e);
        }
        Some(Tiny { sz: sz + 1, bits: b })
    }
}

} // verus!
