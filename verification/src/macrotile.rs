//! Macro-tile compression: brute-force search for the best block size.
//! Every (bw, bh, ox, oy) combination is tried with EG-2 compression, in two
//! variants: A) raw cell values (no palette, bpp covers the largest value),
//! B) quantized indices and a stored palette (lower bpp, plus the palette).

use vstd::prelude::*;
use vstd::string::*;
use rayon::iter::{IndexedParallelIterator, IntoParallelRefIterator, ParallelIterator};
use crate::animation::le16;
use crate::text::{decimal, push_decimal};
use vstd::arithmetic::power2::pow2;
use crate::eg2::{bit_length, lemma_bit_length_bounds, lemma_bit_length_between, eg2_best, eg2_encode_frame};

verus! {

/// Cell `(y, x)` of a `map_w` x `map_h` map; 0 outside the map.
pub open spec fn cell_at(cells: Seq<u16>, map_w: nat, map_h: nat, y: int, x: int) -> u16 {
    if 0 <= y < map_h && 0 <= x < map_w {
        cells[y * map_w + x]
    } else {
        0
    }
}

/// Number of blocks of size `b` that cover `dim` cells shifted by `off`.
pub open spec fn macro_dim(dim: nat, off: nat, b: nat) -> nat {
    ((dim + off + b - 1) as nat) / b
}

/// Sizes for which the block geometry stays exact in i32 and indexes inside `cells`.
pub open spec fn geom_ok(cells: Seq<u16>, map_w: nat, map_h: nat, bw: nat, bh: nat, ox: nat, oy: nat) -> bool {
    &&& bw >= 1
    &&& bh >= 1
    &&& map_w + ox + bw <= i32::MAX
    &&& map_h + oy + bh <= i32::MAX
    &&& map_w * map_h <= cells.len()
}

/// The `bw` x `bh` block at macro position `(mx, my)`, row after row.
pub open spec fn block_at(
    cells: Seq<u16>,
    map_w: nat,
    map_h: nat,
    bw: nat,
    bh: nat,
    ox: nat,
    oy: nat,
    mx: nat,
    my: nat,
) -> Seq<u16> {
    Seq::new(bw * bh, |k: int| cell_at(cells, map_w, map_h, my * bh + k / (bw as int) - oy, mx * bw + k % (bw as int) - ox))
}

/// All blocks in scan order (left to right, top to bottom).
pub open spec fn scan_blocks(cells: Seq<u16>, map_w: nat, map_h: nat, bw: nat, bh: nat, ox: nat, oy: nat) -> Seq<Seq<u16>> {
    let mw = macro_dim(map_w, ox, bw);
    let mh = macro_dim(map_h, oy, bh);
    Seq::new(mw * mh, |t: int| block_at(cells, map_w, map_h, bw, bh, ox, oy, (t % (mw as int)) as nat, (t / (mw as int)) as nat))
}

/// Distinct blocks among the first `k`, in order of first appearance.
pub open spec fn distinct_blocks(bs: Seq<Seq<u16>>, k: nat) -> Seq<Seq<u16>>
    decreases k,
{
    if k == 0 {
        seq![]
    } else {
        let d = distinct_blocks(bs, (k - 1) as nat);
        if d.contains(bs[k - 1]) {
            d
        } else {
            d.push(bs[k - 1])
        }
    }
}

/// First position of `b` in `d` from `k` on (the length of `d` when absent).
pub open spec fn first_pos(d: Seq<Seq<u16>>, b: Seq<u16>, k: nat) -> nat
    decreases d.len() - k,
{
    if k >= d.len() {
        d.len()
    } else if d[k as int] == b {
        k
    } else {
        first_pos(d, b, k + 1)
    }
}

proof fn lemma_first_pos(d: Seq<Seq<u16>>, b: Seq<u16>, k: nat)
    ensures
        first_pos(d, b, k) >= k || first_pos(d, b, k) == d.len(),
        first_pos(d, b, k) <= d.len(),
        first_pos(d, b, k) < d.len() ==> d[first_pos(d, b, k) as int] == b,
        forall|j: int| k <= j < first_pos(d, b, k) ==> d[j] != b,
    decreases d.len() - k,
{
    if k < d.len() && d[k as int] != b {
        lemma_first_pos(d, b, k + 1);
    }
}

proof fn lemma_first_pos_contains(d: Seq<Seq<u16>>, b: Seq<u16>)
    ensures
        d.contains(b) <==> first_pos(d, b, 0) < d.len(),
{
    lemma_first_pos(d, b, 0);
    if d.contains(b) {
        let j = choose|j: int| 0 <= j < d.len() && d[j] == b;
        assert(first_pos(d, b, 0) <= j);
    }
}

/// For each block in scan order, the index of its distinct block.
pub open spec fn block_slots(bs: Seq<Seq<u16>>) -> Seq<nat> {
    let d = distinct_blocks(bs, bs.len());
    Seq::new(bs.len(), |t: int| first_pos(d, bs[t], 0))
}

proof fn lemma_block_at_index(
    cells: Seq<u16>,
    map_w: nat,
    map_h: nat,
    bw: nat,
    bh: nat,
    ox: nat,
    oy: nat,
    mx: nat,
    my: nat,
    dx: nat,
    dy: nat,
)
    requires
        dx < bw,
        dy < bh,
    ensures
        dy * bw + dx < bw * bh,
        block_at(cells, map_w, map_h, bw, bh, ox, oy, mx, my)[(dy * bw + dx) as int] == cell_at(
            cells,
            map_w,
            map_h,
            my * bh + dy - oy,
            mx * bw + dx - ox,
        ),
{
    let k = dy * bw + dx;
    vstd::arithmetic::div_mod::lemma_fundamental_div_mod_converse(k as int, bw as int, dy as int, dx as int);
    assert(dy * bw + dx < bw * bh) by (nonlinear_arith)
        requires
            dx < bw,
            dy < bh,
    ;
}

fn get_cell(cells: &[u16], map_w: usize, map_h: usize, y: i32, x: i32) -> (c: u16)
    requires
        map_w * map_h <= cells.len(),
    ensures
        c == cell_at(cells@, map_w as nat, map_h as nat, y as int, x as int),
{
    if y >= 0 && (y as usize) < map_h && x >= 0 && (x as usize) < map_w {
        assert((y as int) * (map_w as int) + (x as int) < (map_w as int) * (map_h as int)) by (nonlinear_arith)
            requires
                0 <= y < map_h,
                0 <= x < map_w,
        ;
        cells[y as usize * map_w + x as usize]
    } else {
        0
    }
}

fn same_block(a: &Vec<u16>, b: &Vec<u16>) -> (r: bool)
    ensures
        r == (a@ == b@),
{
    if a.len() != b.len() {
        return false;
    }
    let mut k: usize = 0;
    while k < a.len()
        invariant
            k <= a.len(),
            a.len() == b.len(),
            forall|j: int| 0 <= j < k ==> a[j] == b[j],
        decreases a.len() - k,
    {
        if a[k] != b[k] {
            return false;
        }
        k += 1;
    }
    assert(a@ =~= b@);
    true
}

fn read_block(
    cells: &[u16],
    map_w: usize,
    map_h: usize,
    bw: usize,
    bh: usize,
    ox: usize,
    oy: usize,
    mx: usize,
    my: usize,
) -> (block: Vec<u16>)
    requires
        geom_ok(cells@, map_w as nat, map_h as nat, bw as nat, bh as nat, ox as nat, oy as nat),
        mx < macro_dim(map_w as nat, ox as nat, bw as nat),
        my < macro_dim(map_h as nat, oy as nat, bh as nat),
    ensures
        block@ == block_at(cells@, map_w as nat, map_h as nat, bw as nat, bh as nat, ox as nat, oy as nat, mx as nat, my as nat),
{
    let ghost target = block_at(cells@, map_w as nat, map_h as nat, bw as nat, bh as nat, ox as nat, oy as nat, mx as nat, my as nat);
    proof {
        vstd::arithmetic::div_mod::lemma_fundamental_div_mod((map_w + ox + bw - 1) as int, bw as int);
        vstd::arithmetic::div_mod::lemma_fundamental_div_mod((map_h + oy + bh - 1) as int, bh as int);
        assert(mx * bw + bw <= map_w + ox + bw - 1 + 1) by (nonlinear_arith)
            requires
                mx < macro_dim(map_w as nat, ox as nat, bw as nat),
                (map_w + ox + bw - 1) == bw * macro_dim(map_w as nat, ox as nat, bw as nat) + (map_w + ox + bw - 1) % (bw as int),
                (map_w + ox + bw - 1) % (bw as int) >= 0,
                bw >= 1,
        ;
        assert(my * bh + bh <= map_h + oy + bh - 1 + 1) by (nonlinear_arith)
            requires
                my < macro_dim(map_h as nat, oy as nat, bh as nat),
                (map_h + oy + bh - 1) == bh * macro_dim(map_h as nat, oy as nat, bh as nat) + (map_h + oy + bh - 1) % (bh as int),
                (map_h + oy + bh - 1) % (bh as int) >= 0,
                bh >= 1,
        ;
    }
    let mut block: Vec<u16> = Vec::new();
    let mut dy: usize = 0;
    assert(bw <= bw * bh) by (nonlinear_arith)
        requires
            bh >= 1,
    ;
    while dy < bh
        invariant
            dy <= bh,
            geom_ok(cells@, map_w as nat, map_h as nat, bw as nat, bh as nat, ox as nat, oy as nat),
            mx * bw + bw <= map_w + ox + bw,
            my * bh + bh <= map_h + oy + bh,
            block@ == target.take((dy * bw) as int),
            target == block_at(cells@, map_w as nat, map_h as nat, bw as nat, bh as nat, ox as nat, oy as nat, mx as nat, my as nat),
            target.len() == bw * bh,
            dy * bw <= bw * bh,
            dy < bh ==> dy * bw + bw <= bw * bh,
        decreases bh - dy,
    {
        let mut dx: usize = 0;
        while dx < bw
            invariant
                dy < bh,
                dx <= bw,
                geom_ok(cells@, map_w as nat, map_h as nat, bw as nat, bh as nat, ox as nat, oy as nat),
                mx * bw + bw <= map_w + ox + bw,
                my * bh + bh <= map_h + oy + bh,
                block@ == target.take((dy * bw + dx) as int),
                target == block_at(cells@, map_w as nat, map_h as nat, bw as nat, bh as nat, ox as nat, oy as nat, mx as nat, my as nat),
                target.len() == bw * bh,
                dy * bw + bw <= bw * bh,
            decreases bw - dx,
        {
            assert(my * bh + dy < my * bh + bh);
            assert(mx * bw + dx < mx * bw + bw);
            let yy: i32 = (my * bh + dy) as i32 - oy as i32;
            let xx: i32 = (mx * bw + dx) as i32 - ox as i32;
            let c = get_cell(cells, map_w, map_h, yy, xx);
            let ghost k = dy * bw + dx;
            proof {
                lemma_block_at_index(cells@, map_w as nat, map_h as nat, bw as nat, bh as nat, ox as nat, oy as nat, mx as nat, my as nat, dx as nat, dy as nat);
            }
            assert(yy as int == my * bh + dy - oy);
            assert(xx as int == mx * bw + dx - ox);
            assert(target[k as int] == c);
            block.push(c);
            assert(block@ =~= target.take((dy * bw + dx + 1) as int));
            dx += 1;
        }
        assert((dy + 1) * bw == dy * bw + bw) by (nonlinear_arith);
        if dy + 1 < bh {
            assert((dy + 1) * bw + bw <= bw * bh) by (nonlinear_arith)
                requires
                    dy + 1 < bh,
            ;
        }
        dy += 1;
    }
    assert(dy * bw == bw * bh) by (nonlinear_arith)
        requires
            dy == bh,
    ;
    assert(block@ =~= target);
    block
}


/// The contents of a list of blocks.
pub open spec fn blocks_of(v: Seq<Vec<u16>>) -> Seq<Seq<u16>> {
    Seq::new(v.len(), |k: int| v[k]@)
}

proof fn lemma_distinct_len_mono(bs: Seq<Seq<u16>>, j: nat, k: nat)
    requires
        j <= k,
    ensures
        distinct_blocks(bs, j).len() <= distinct_blocks(bs, k).len(),
    decreases k,
{
    if j < k {
        lemma_distinct_len_mono(bs, j, (k - 1) as nat);
    }
}

proof fn lemma_first_pos_push(d: Seq<Seq<u16>>, x: Seq<u16>, b: Seq<u16>)
    requires
        d.contains(b),
    ensures
        first_pos(d.push(x), b, 0) == first_pos(d, b, 0),
{
    lemma_first_pos_contains(d, b);
    lemma_first_pos_push_from(d, x, b, 0);
}

proof fn lemma_first_pos_push_from(d: Seq<Seq<u16>>, x: Seq<u16>, b: Seq<u16>, k: nat)
    requires
        k <= d.len(),
        first_pos(d, b, k) < d.len(),
    ensures
        first_pos(d.push(x), b, k) == first_pos(d, b, k),
    decreases d.len() - k,
{
    if k < d.len() && d[k as int] != b {
        lemma_first_pos_push_from(d, x, b, k + 1);
    }
}

/// The distinct blocks of the map and, per block in scan order, its index;
/// `None` once there would be more than 255 distinct blocks.
pub open spec fn blocks_spec(cells: Seq<u16>, map_w: nat, map_h: nat, bw: nat, bh: nat, ox: nat, oy: nat) -> Option<(Seq<Seq<u16>>, Seq<nat>)> {
    let bs = scan_blocks(cells, map_w, map_h, bw, bh, ox, oy);
    let d = distinct_blocks(bs, bs.len());
    if d.len() > 255 {
        None
    } else {
        Some((d, block_slots(bs)))
    }
}

/// Index of `block` among the distinct blocks found so far. A linear search
/// stands in for a hash map keyed by blocks: vstd's `HashMap` specification
/// holds only for key types known to obey its key model, which for a `Vec`
/// key would take an assumption, so the first-seen numbering could not be
/// proved through such a map.
fn find_block(list: &Vec<Vec<u16>>, block: &Vec<u16>) -> (r: Option<usize>)
    ensures
        match r {
            Some(j) => j < list.len() && j == first_pos(blocks_of(list@), block@, 0),
            None => !blocks_of(list@).contains(block@),
        },
{
    let ghost d = blocks_of(list@);
    let mut j: usize = 0;
    while j < list.len()
        invariant
            j <= list.len(),
            d == blocks_of(list@),
            forall|i: int| 0 <= i < j ==> d[i] != block@,
        decreases list.len() - j,
    {
        if same_block(&list[j], block) {
            proof {
                assert(d[j as int] == block@);
                lemma_first_pos(d, block@, 0);
                if first_pos(d, block@, 0) < j {
                    assert(d[first_pos(d, block@, 0) as int] == block@);
                }
            }
            return Some(j);
        }
        j += 1;
    }
    None
}

fn build_blocks(cells: &[u16], map_w: usize, map_h: usize, bw: usize, bh: usize, ox: usize, oy: usize) -> (res: Option<(Vec<Vec<u16>>, Vec<u16>)>)
    requires
        geom_ok(cells@, map_w as nat, map_h as nat, bw as nat, bh as nat, ox as nat, oy as nat),
    ensures
        match blocks_spec(cells@, map_w as nat, map_h as nat, bw as nat, bh as nat, ox as nat, oy as nat) {
            None => res is None,
            Some((d, slots)) => res matches Some((list, flat)) && blocks_of(list@) == d && flat@.len() == slots.len()
                && forall|t: int| 0 <= t < slots.len() ==> flat@[t] as nat == #[trigger] slots[t],
        },
{
    let ghost bs = scan_blocks(cells@, map_w as nat, map_h as nat, bw as nat, bh as nat, ox as nat, oy as nat);
    let macro_w: usize = (map_w + ox + bw - 1) / bw;
    let macro_h: usize = (map_h + oy + bh - 1) / bh;
    let ghost mw = macro_w as nat;
    let ghost total = (macro_w * macro_h) as nat;
    assert(bs.len() == total);
    let mut block_list: Vec<Vec<u16>> = Vec::new();
    let mut macro_flat: Vec<u16> = Vec::new();
    let mut my: usize = 0;
    while my < macro_h
        invariant
            my <= macro_h,
            geom_ok(cells@, map_w as nat, map_h as nat, bw as nat, bh as nat, ox as nat, oy as nat),
            macro_w == macro_dim(map_w as nat, ox as nat, bw as nat),
            macro_h == macro_dim(map_h as nat, oy as nat, bh as nat),
            bs == scan_blocks(cells@, map_w as nat, map_h as nat, bw as nat, bh as nat, ox as nat, oy as nat),
            mw == macro_w,
            blocks_of(block_list@) == distinct_blocks(bs, (my * mw) as nat),
            block_list.len() <= 255,
            macro_flat@.len() == my * mw,
            forall|j: int| 0 <= j < my * mw ==> blocks_of(block_list@).contains(#[trigger] bs[j]) && macro_flat@[j] as nat
                == first_pos(blocks_of(block_list@), bs[j], 0),
        decreases macro_h - my,
    {
        let mut mx: usize = 0;
        while mx < macro_w
            invariant
                my < macro_h,
                mx <= macro_w,
                geom_ok(cells@, map_w as nat, map_h as nat, bw as nat, bh as nat, ox as nat, oy as nat),
                macro_w == macro_dim(map_w as nat, ox as nat, bw as nat),
                macro_h == macro_dim(map_h as nat, oy as nat, bh as nat),
                bs == scan_blocks(cells@, map_w as nat, map_h as nat, bw as nat, bh as nat, ox as nat, oy as nat),
                mw == macro_w,
                blocks_of(block_list@) == distinct_blocks(bs, (my * mw + mx) as nat),
                block_list.len() <= 255,
                macro_flat@.len() == my * mw + mx,
                forall|j: int| 0 <= j < my * mw + mx ==> blocks_of(block_list@).contains(#[trigger] bs[j])
                    && macro_flat@[j] as nat == first_pos(blocks_of(block_list@), bs[j], 0),
            decreases macro_w - mx,
        {
            let block = read_block(cells, map_w, map_h, bw, bh, ox, oy, mx, my);
            let ghost t = (my * mw + mx) as nat;
            proof {
                vstd::arithmetic::div_mod::lemma_fundamental_div_mod_converse(t as int, mw as int, my as int, mx as int);
                assert(t < macro_w * macro_h) by (nonlinear_arith)
                    requires
                        t == my * mw + mx,
                        mx < mw,
                        my < macro_h,
                        mw == macro_w,
                ;
            }
            assert(bs[t as int] == block@);
            let ghost d0 = blocks_of(block_list@);
            let idx: usize = match find_block(&block_list, &block) {
                Some(j) => {
                    proof {
                        lemma_first_pos(d0, bs[t as int], 0);
                        assert(d0[j as int] == bs[t as int]);
                        assert(d0.contains(bs[t as int]));
                    }
                    assert(blocks_of(block_list@) == distinct_blocks(bs, t + 1));
                    j
                },
                None => {
                    if block_list.len() == 255 {
                        proof {
                            assert(distinct_blocks(bs, t + 1).len() == 256);
                            lemma_distinct_len_mono(bs, t + 1, bs.len());
                        }
                        return None;
                    }
                    let j = block_list.len();
                    block_list.push(block);
                    proof {
                        assert(blocks_of(block_list@) =~= d0.push(bs[t as int]));
                        assert(blocks_of(block_list@) == distinct_blocks(bs, t + 1));
                        lemma_first_pos(blocks_of(block_list@), bs[t as int], 0);
                        lemma_first_pos_contains(d0, bs[t as int]);
                        assert forall|i: int| 0 <= i < j implies blocks_of(block_list@)[i] != bs[t as int] by {
                            assert(blocks_of(block_list@)[i] == d0[i]);
                            if d0[i] == bs[t as int] {
                                assert(d0.contains(bs[t as int]));
                            }
                        }
                    }
                    j
                },
            };
            proof {
                let d1 = blocks_of(block_list@);
                assert(d1 == distinct_blocks(bs, t + 1));
                assert forall|j: int| 0 <= j < t implies d1.contains(#[trigger] bs[j]) && first_pos(d1, bs[j], 0)
                    == first_pos(d0, bs[j], 0) by {
                    if d1 != d0 {
                        lemma_first_pos_push(d0, bs[t as int], bs[j]);
                        assert(d1 =~= d0.push(bs[t as int]));
                        let w = choose|w: int| 0 <= w < d0.len() && d0[w] == bs[j];
                        assert(d1[w] == bs[j]);
                    }
                }
                lemma_first_pos(d1, bs[t as int], 0);
                if first_pos(d1, bs[t as int], 0) > idx {
                }
                assert(d1.contains(bs[t as int])) by {
                    assert(d1[idx as int] == bs[t as int]);
                }
            }
            macro_flat.push(#[verifier::truncate] (idx as u16));
            assert(idx < 256);
            mx += 1;
        }
        assert((my + 1) * mw == my * mw + mw) by (nonlinear_arith);
        my += 1;
    }
    proof {
        assert(macro_h * mw == total) by (nonlinear_arith)
            requires
                mw == macro_w,
                total == macro_w * macro_h,
        ;
    }
    Some((block_list, macro_flat))
}


/// Number of the first `k` slots equal to `i`.
pub open spec fn slot_count(slots: Seq<nat>, i: nat, k: nat) -> nat
    decreases k,
{
    if k == 0 {
        0
    } else {
        slot_count(slots, i, (k - 1) as nat) + if slots[k - 1] == i { 1nat } else { 0nat }
    }
}

/// How often each of the `n` distinct blocks occurs.
pub open spec fn block_freq(slots: Seq<nat>, n: nat) -> Seq<nat> {
    Seq::new(n, |i: int| slot_count(slots, i as nat, slots.len()))
}

/// Number of entries of `o` whose frequency is at least `f`.
pub open spec fn count_at_least(o: Seq<nat>, freq: Seq<nat>, f: nat) -> nat
    decreases o.len(),
{
    if o.len() == 0 {
        0
    } else {
        count_at_least(o.drop_last(), freq, f) + if freq[o.last() as int] >= f { 1nat } else { 0nat }
    }
}

/// Indices `0..k` stably sorted by decreasing frequency: each index is
/// inserted after every earlier index of equal or higher frequency.
pub open spec fn freq_order(freq: Seq<nat>, k: nat) -> Seq<nat>
    decreases k,
{
    if k == 0 {
        seq![]
    } else {
        let o = freq_order(freq, (k - 1) as nat);
        o.insert(count_at_least(o, freq, freq[k - 1]) as int, (k - 1) as nat)
    }
}

/// Table from old index to new position, after recording positions `0..k` of `o`.
pub open spec fn remap_table(o: Seq<nat>, n: nat, k: nat) -> Seq<nat>
    decreases k,
{
    if k == 0 {
        Seq::new(n, |i: int| 0nat)
    } else {
        remap_table(o, n, (k - 1) as nat).update(o[k - 1] as int, (k - 1) as nat)
    }
}

proof fn lemma_count_at_least_bound(o: Seq<nat>, freq: Seq<nat>, f: nat)
    ensures
        count_at_least(o, freq, f) <= o.len(),
    decreases o.len(),
{
    if o.len() > 0 {
        lemma_count_at_least_bound(o.drop_last(), freq, f);
    }
}

proof fn lemma_freq_order_len(freq: Seq<nat>, k: nat)
    ensures
        freq_order(freq, k).len() == k,
        forall|i: int| 0 <= i < k ==> #[trigger] freq_order(freq, k)[i] < k,
    decreases k,
{
    if k > 0 {
        lemma_freq_order_len(freq, (k - 1) as nat);
        let o = freq_order(freq, (k - 1) as nat);
        lemma_count_at_least_bound(o, freq, freq[k - 1]);
        let p = count_at_least(o, freq, freq[k - 1]);
        assert forall|i: int| 0 <= i < k implies #[trigger] freq_order(freq, k)[i] < k by {
            if i < p {
                assert(freq_order(freq, k)[i] == o[i]);
            } else if i > p {
                assert(freq_order(freq, k)[i] == o[i - 1]);
            }
        }
    }
}

fn block_frequencies(macro_flat: &Vec<u16>, n: usize, Ghost(slots): Ghost<Seq<nat>>) -> (freq: Vec<usize>)
    requires
        macro_flat@.len() == slots.len(),
        forall|t: int| 0 <= t < slots.len() ==> macro_flat@[t] as nat == #[trigger] slots[t],
        forall|t: int| 0 <= t < slots.len() ==> #[trigger] slots[t] < n,
    ensures
        freq.len() == n,
        forall|i: int| 0 <= i < n ==> freq[i] as nat == #[trigger] block_freq(slots, n as nat)[i],
{
    let mut freq: Vec<usize> = vec![0usize; n];
    let mut t: usize = 0;
    while t < macro_flat.len()
        invariant
            t <= macro_flat.len(),
            macro_flat@.len() == slots.len(),
            forall|j: int| 0 <= j < slots.len() ==> macro_flat@[j] as nat == #[trigger] slots[j],
            forall|j: int| 0 <= j < slots.len() ==> #[trigger] slots[j] < n,
            freq.len() == n,
            forall|i: int| 0 <= i < n ==> freq[i] as nat == #[trigger] slot_count(slots, i as nat, t as nat),
            forall|i: int| 0 <= i < n ==> freq[i] <= t,
        decreases macro_flat.len() - t,
    {
        let idx = macro_flat[t] as usize;
        assert(slots[t as int] == idx);
        let ghost before = freq@;
        freq.set(idx, freq[idx] + 1);
        t += 1;
        assert forall|i: int| 0 <= i < n implies freq[i] as nat == #[trigger] slot_count(slots, i as nat, t as nat) by {
            assert(slot_count(slots, i as nat, t as nat) == slot_count(slots, i as nat, (t - 1) as nat) + if slots[t - 1]
                == i as nat { 1nat } else { 0nat });
            if i != idx {
                assert(freq[i] == before[i]);
            }
        }
    }
    freq
}

/// Block indices, most frequent first, ties in index order: what a stable sort
/// by descending frequency gives. Written as a loop because vstd gives
/// `sort_by` no specification, so a call to it would prove nothing about the order.
fn stable_freq_order(freq: &Vec<usize>, Ghost(f): Ghost<Seq<nat>>) -> (order: Vec<usize>)
    requires
        freq.len() == f.len(),
        forall|i: int| 0 <= i < f.len() ==> freq[i] as nat == #[trigger] f[i],
    ensures
        order.len() == f.len(),
        forall|i: int| 0 <= i < f.len() ==> order[i] as nat == #[trigger] freq_order(f, f.len())[i],
{
    let n = freq.len();
    let mut order: Vec<usize> = Vec::new();
    let mut k: usize = 0;
    while k < n
        invariant
            k <= n,
            n == f.len(),
            freq.len() == n,
            forall|i: int| 0 <= i < f.len() ==> freq[i] as nat == #[trigger] f[i],
            order.len() == k,
            forall|i: int| 0 <= i < k ==> order[i] as nat == #[trigger] freq_order(f, k as nat)[i],
            forall|i: int| 0 <= i < k ==> order[i] < k,
        decreases n - k,
    {
        proof {
            lemma_freq_order_len(f, k as nat);
        }
        let ghost o = freq_order(f, k as nat);
        let fk = freq[k];
        let mut p: usize = 0;
        let mut j: usize = 0;
        while j < k
            invariant
                j <= k,
                k < n,
                n == f.len(),
                freq.len() == n,
                forall|i: int| 0 <= i < f.len() ==> freq[i] as nat == #[trigger] f[i],
                order.len() == k,
                o.len() == k,
                forall|i: int| 0 <= i < k ==> order[i] as nat == #[trigger] o[i],
                forall|i: int| 0 <= i < k ==> order[i] < k,
                fk == f[k as int],
                p == count_at_least(o.take(j as int), f, fk as nat),
                p <= j,
            decreases k - j,
        {
            assert(o.take(j + 1).drop_last() =~= o.take(j as int));
            if freq[order[j]] >= fk {
                p += 1;
            }
            j += 1;
        }
        assert(o.take(k as int) =~= o);
        let ghost before = order@;
        order.insert(p, k);
        proof {
            lemma_freq_order_len(f, (k + 1) as nat);
            assert forall|i: int| 0 <= i < k + 1 implies order[i] as nat == #[trigger] freq_order(f, (k + 1) as nat)[i] by {
                if i < p {
                    assert(order[i] == before[i]);
                } else if i > p {
                    assert(order[i] == before[i - 1]);
                }
            }
        }
        k += 1;
    }
    order
}

fn remap_positions(order: &Vec<usize>, Ghost(o): Ghost<Seq<nat>>) -> (remap: Vec<usize>)
    requires
        order.len() == o.len(),
        forall|i: int| 0 <= i < o.len() ==> order[i] as nat == #[trigger] o[i],
        forall|i: int| 0 <= i < o.len() ==> #[trigger] o[i] < o.len(),
    ensures
        remap.len() == o.len(),
        forall|i: int| 0 <= i < o.len() ==> remap[i] as nat == #[trigger] remap_table(o, o.len(), o.len())[i],
{
    let n = order.len();
    let mut remap: Vec<usize> = vec![0usize; n];
    let mut k: usize = 0;
    while k < n
        invariant
            k <= n,
            n == o.len(),
            order.len() == n,
            forall|i: int| 0 <= i < o.len() ==> order[i] as nat == #[trigger] o[i],
            forall|i: int| 0 <= i < o.len() ==> #[trigger] o[i] < o.len(),
            remap.len() == n,
            remap_table(o, n as nat, k as nat).len() == n,
            forall|i: int| 0 <= i < n ==> remap[i] as nat == #[trigger] remap_table(o, n as nat, k as nat)[i],
        decreases n - k,
    {
        let old_idx = order[k];
        assert(o[k as int] == old_idx);
        remap.set(old_idx, k);
        k += 1;
    }
    remap
}


/// Fewest bits that can hold the values `0..n` (at least 1).
pub open spec fn min_bpp_spec(n: nat) -> nat {
    if n <= 1 {
        1
    } else {
        bit_length((n - 1) as nat)
    }
}

/// Minimum bits needed to represent values 0..n (n exclusive).
pub fn min_bpp(n: usize) -> (bpp: u8)
    requires
        n <= 0x8000_0000,
    ensures
        bpp as nat == min_bpp_spec(n as nat),
{
    if n <= 1 {
        return 1;
    }
    proof {
        vstd::arithmetic::power2::lemma2_to64();
        vstd::arithmetic::power2::lemma2_to64_rest();
        lemma_bit_length_bounds((n - 1) as nat);
        lemma_bit_length_between((n - 1) as nat, 0, 31);
    }
    let ghost bl = bit_length((n - 1) as nat);
    let mut bpp: u8 = 1;
    loop
        invariant
            2 <= n <= 0x8000_0000,
            bl == bit_length((n - 1) as nat),
            1 <= bl <= 31,
            pow2((bl - 1) as nat) <= n - 1,
            n - 1 < pow2(bl),
            1 <= bpp <= bl,
        decreases bl - bpp,
    {
        proof {
            vstd::arithmetic::power2::lemma2_to64();
            vstd::bits::lemma_u32_shl_is_mul(1, bpp as u32);
        }
        if (1u32 << bpp) < n as u32 {
            proof {
                if bpp as nat > bl {
                    vstd::arithmetic::power2::lemma_pow2_strictly_increases(bl, bpp as nat);
                }
            }
            bpp += 1;
        } else {
            proof {
                if (bpp as nat) < (bl - 1) as nat {
                    vstd::arithmetic::power2::lemma_pow2_strictly_increases(bpp as nat, (bl - 1) as nat);
                }
            }
            return bpp;
        }
    }
}

/// Whether value `v` occurs in some block of `d`.
pub open spec fn value_used(d: Seq<Seq<u16>>, v: u16) -> bool {
    exists|i: int, j: int| 0 <= i < d.len() && 0 <= j < d[i].len() && #[trigger] d[i][j] == v
}

/// The values below `m` that occur in the blocks, ascending.
pub open spec fn sorted_values(d: Seq<Seq<u16>>, m: nat) -> Seq<u16>
    decreases m,
{
    if m == 0 {
        seq![]
    } else {
        sorted_values(d, (m - 1) as nat) + if value_used(d, (m - 1) as u16) { seq![(m - 1) as u16] } else { seq![] }
    }
}

/// All values that occur in the blocks, ascending.
pub open spec fn cell_values(d: Seq<Seq<u16>>) -> Seq<u16> {
    sorted_values(d, 65536)
}

/// Index of `v` among the values of the blocks, truncated to a byte.
pub open spec fn value_index(vals: Seq<u16>, v: u16) -> u8 {
    (choose|i: int| 0 <= i < vals.len() && vals[i] == v) as u8
}

proof fn lemma_sorted_values(d: Seq<Seq<u16>>, m: nat)
    requires
        m <= 65536,
    ensures
        sorted_values(d, m).len() <= m,
        forall|i: int| 0 <= i < sorted_values(d, m).len() ==> (#[trigger] sorted_values(d, m)[i]) < m,
        forall|i: int, j: int| 0 <= i < j < sorted_values(d, m).len() ==> sorted_values(d, m)[i] < sorted_values(d, m)[j],
        forall|v: u16| (v as nat) < m && value_used(d, v) ==> sorted_values(d, m).contains(v),
        forall|i: int| 0 <= i < sorted_values(d, m).len() ==> value_used(d, #[trigger] sorted_values(d, m)[i]),
    decreases m,
{
    if m > 0 {
        lemma_sorted_values(d, (m - 1) as nat);
        let prev = sorted_values(d, (m - 1) as nat);
        let cur = sorted_values(d, m);
        assert forall|v: u16| (v as nat) < m && value_used(d, v) implies cur.contains(v) by {
            if (v as nat) < m - 1 {
                let k = choose|k: int| 0 <= k < prev.len() && prev[k] == v;
                assert(cur[k] == v);
            } else {
                assert(cur[cur.len() - 1] == v);
            }
        }
    }
}

/// The distinct cell values of the blocks, ascending. A presence table over the
/// 16-bit range stands in for a hash set and a sort: vstd specifies neither the
/// order in which a `HashSet` is walked nor slice sorting, and the table gives
/// the sorted set directly.
fn collect_values(d: &Vec<Vec<u16>>) -> (vals: Vec<u16>)
    ensures
        vals@ == cell_values(blocks_of(d@)),
{
    let ghost bd = blocks_of(d@);
    let mut used: Vec<bool> = vec![false; 65536];
    let mut i: usize = 0;
    while i < d.len()
        invariant
            i <= d.len(),
            bd == blocks_of(d@),
            used.len() == 65536,
            forall|v: int| 0 <= v < 65536 ==> #[trigger] used[v] == exists|a: int, b: int|
                0 <= a < i && 0 <= b < bd[a].len() && #[trigger] bd[a][b] == v as u16,
        decreases d.len() - i,
    {
        let blk = &d[i];
        let mut j: usize = 0;
        while j < blk.len()
            invariant
                i < d.len(),
                blk@ == bd[i as int],
                bd == blocks_of(d@),
                j <= blk.len(),
                used.len() == 65536,
                forall|v: int| 0 <= v < 65536 ==> #[trigger] used[v] == ((exists|a: int, b: int|
                    0 <= a < i && 0 <= b < bd[a].len() && #[trigger] bd[a][b] == v as u16)
                    || exists|b: int| 0 <= b < j && #[trigger] bd[i as int][b] == v as u16),
            decreases blk.len() - j,
        {
            let c = blk[j];
            used.set(c as usize, true);
            assert forall|v: int| 0 <= v < 65536 implies #[trigger] used[v] == ((exists|a: int, b: int|
                0 <= a < i && 0 <= b < bd[a].len() && #[trigger] bd[a][b] == v as u16)
                || exists|b: int| 0 <= b < j + 1 && #[trigger] bd[i as int][b] == v as u16) by {
                if v == c as int {
                    assert(bd[i as int][j as int] == v as u16);
                }
            }
            j += 1;
        }
        assert forall|v: int| 0 <= v < 65536 implies #[trigger] used[v] == exists|a: int, b: int|
            0 <= a < i + 1 && 0 <= b < bd[a].len() && #[trigger] bd[a][b] == v as u16 by {
            if exists|a: int, b: int| 0 <= a < i + 1 && 0 <= b < bd[a].len() && #[trigger] bd[a][b] == v as u16 {
                let (a, b) = choose|a: int, b: int| 0 <= a < i + 1 && 0 <= b < bd[a].len() && #[trigger] bd[a][b] == v as u16;
                if a == i {
                    assert(bd[i as int][b] == v as u16);
                }
            }
        }
        i += 1;
    }
    let mut vals: Vec<u16> = Vec::new();
    let mut v: usize = 0;
    while v < 65536
        invariant
            v <= 65536,
            used.len() == 65536,
            forall|w: int| 0 <= w < 65536 ==> #[trigger] used[w] == value_used(bd, w as u16),
            vals@ == sorted_values(bd, v as nat),
        decreases 65536 - v,
    {
        if used[v] {
            vals.push(v as u16);
        }
        v += 1;
    }
    vals
}


/// Result of evaluating one (bw, bh, ox, oy) combo.
#[derive(Clone, Copy, Debug, PartialEq, Eq, Structural)]
pub struct MacroResult {
    pub bw: usize,
    pub bh: usize,
    pub ox: usize,
    pub oy: usize,
    pub n_blocks: usize,
    pub total: usize,
    pub uses_palette: bool,
}

/// The distinct blocks reordered by frequency, each value turned into a byte:
/// its index among `vals` when `quant`, else truncated.
pub open spec fn mapped_blocks(d: Seq<Seq<u16>>, o: Seq<nat>, k: nat, vals: Seq<u16>, quant: bool) -> Seq<u8>
    decreases k,
{
    if k == 0 {
        seq![]
    } else {
        let b = d[o[k - 1] as int];
        mapped_blocks(d, o, (k - 1) as nat, vals, quant) + Seq::new(
            b.len(),
            |j: int| if quant { value_index(vals, b[j]) } else { b[j] as u8 },
        )
    }
}

/// Frequency order of the distinct blocks.
pub open spec fn macro_order(d: Seq<Seq<u16>>, slots: Seq<nat>) -> Seq<nat> {
    freq_order(block_freq(slots, d.len()), d.len())
}

/// The macro map: for each block in scan order, the new index of its distinct block.
pub open spec fn macro_map_bytes(d: Seq<Seq<u16>>, slots: Seq<nat>) -> Seq<u8> {
    let rt = remap_table(macro_order(d, slots), d.len(), d.len());
    Seq::new(slots.len(), |t: int| rt[slots[t] as int] as u8)
}

/// Largest value (the values are ascending), 0 if none.
pub open spec fn max_value(vals: Seq<u16>) -> nat {
    if vals.len() == 0 {
        0
    } else {
        vals.last() as nat
    }
}

/// EG-2 stream of the macro map.
pub open spec fn map_stream(d: Seq<Seq<u16>>, slots: Seq<nat>, mw: nat) -> Seq<u8> {
    eg2_best(macro_map_bytes(d, slots), min_bpp_spec(d.len()), mw).0
}

/// EG-2 stream of the block definitions: raw values, or palette indices when `quant`.
pub open spec fn defs_stream(d: Seq<Seq<u16>>, slots: Seq<nat>, bw: nat, quant: bool) -> Seq<u8> {
    let vals = cell_values(d);
    let bpp = if quant { min_bpp_spec(vals.len()) } else { min_bpp_spec(max_value(vals) + 1) };
    eg2_best(mapped_blocks(d, macro_order(d, slots), d.len(), vals, quant), bpp, bw).0
}

/// Encoded size without a palette: 10 header bytes, definitions and map with a bpp byte each.
pub open spec fn total_raw(d: Seq<Seq<u16>>, slots: Seq<nat>, bw: nat, mw: nat) -> nat {
    10 + defs_stream(d, slots, bw, false).len() + 1 + map_stream(d, slots, mw).len() + 1
}

/// Encoded size with a palette: as without, plus one byte per palette value.
pub open spec fn total_quant(d: Seq<Seq<u16>>, slots: Seq<nat>, bw: nat, mw: nat) -> nat {
    10 + cell_values(d).len() + defs_stream(d, slots, bw, true).len() + 1 + map_stream(d, slots, mw).len() + 1
}

/// What evaluating one combination gives: `None` with more than 255 distinct
/// blocks, else the block count and the smaller of the two encoded sizes
/// (the palette variant only when strictly smaller).
pub open spec fn eval_spec(cells: Seq<u16>, map_w: nat, map_h: nat, bw: nat, bh: nat, ox: nat, oy: nat) -> Option<MacroResult> {
    match blocks_spec(cells, map_w, map_h, bw, bh, ox, oy) {
        None => None,
        Some((d, slots)) => {
            let mw = macro_dim(map_w, ox, bw);
            let tr = total_raw(d, slots, bw, mw);
            let tq = total_quant(d, slots, bw, mw);
            Some(
                MacroResult {
                    bw: bw as usize,
                    bh: bh as usize,
                    ox: ox as usize,
                    oy: oy as usize,
                    n_blocks: d.len() as usize,
                    total: (if tq < tr { tq } else { tr }) as usize,
                    uses_palette: tq < tr,
                },
            )
        },
    }
}

/// Every map cell fits a byte.
pub open spec fn cells_fit_byte(cells: Seq<u16>, map_w: nat, map_h: nat) -> bool {
    forall|i: int| 0 <= i < map_w * map_h ==> #[trigger] cells[i] < 256
}

/// What a combination needs: exact geometry, map cells that fit a byte when
/// the combination gets as far as coding its blocks (at most 255 distinct
/// ones), and a block small enough that the definitions' sizes stay in range.
pub open spec fn combo_ok(cells: Seq<u16>, map_w: nat, map_h: nat, bw: nat, bh: nat, ox: nat, oy: nat) -> bool {
    &&& geom_ok(cells, map_w, map_h, bw, bh, ox, oy)
    &&& blocks_spec(cells, map_w, map_h, bw, bh, ox, oy) is Some ==> cells_fit_byte(cells, map_w, map_h)
    &&& bw * bh * 255 * 8 <= u32::MAX
}


proof fn lemma_scan_values_small(cells: Seq<u16>, map_w: nat, map_h: nat, bw: nat, bh: nat, ox: nat, oy: nat)
    requires
        forall|i: int| 0 <= i < map_w * map_h ==> #[trigger] cells[i] < 256,
    ensures
        forall|t: int, k: int| 0 <= t < scan_blocks(cells, map_w, map_h, bw, bh, ox, oy).len()
            && 0 <= k < scan_blocks(cells, map_w, map_h, bw, bh, ox, oy)[t].len()
            ==> #[trigger] scan_blocks(cells, map_w, map_h, bw, bh, ox, oy)[t][k] < 256,
{
    let bs = scan_blocks(cells, map_w, map_h, bw, bh, ox, oy);
    assert forall|t: int, k: int| 0 <= t < bs.len() && 0 <= k < bs[t].len() implies #[trigger] bs[t][k] < 256 by {
        let mw = macro_dim(map_w, ox, bw);
        let mx = (t % (mw as int)) as nat;
        let my = (t / (mw as int)) as nat;
        let y = my * bh + k / (bw as int) - oy;
        let x = mx * bw + k % (bw as int) - ox;
        if 0 <= y < map_h && 0 <= x < map_w {
            assert(y * map_w + x < map_w * map_h) by (nonlinear_arith)
                requires
                    0 <= y < map_h,
                    0 <= x < map_w,
            ;
        }
    }
}

proof fn lemma_distinct_from(bs: Seq<Seq<u16>>, k: nat)
    requires
        k <= bs.len(),
    ensures
        forall|i: int| 0 <= i < distinct_blocks(bs, k).len() ==> exists|t: int| 0 <= t < k && bs[t] == #[trigger] distinct_blocks(bs, k)[i],
    decreases k,
{
    if k > 0 {
        lemma_distinct_from(bs, (k - 1) as nat);
        let d = distinct_blocks(bs, (k - 1) as nat);
        assert forall|i: int| 0 <= i < distinct_blocks(bs, k).len() implies exists|t: int| 0 <= t < k && bs[t]
            == #[trigger] distinct_blocks(bs, k)[i] by {
            if i < d.len() {
                assert(distinct_blocks(bs, k)[i] == d[i]);
                let t = choose|t: int| 0 <= t < k - 1 && bs[t] == d[i];
                assert(bs[t] == distinct_blocks(bs, k)[i]);
            } else {
                assert(bs[k - 1] == distinct_blocks(bs, k)[i]);
            }
        }
    }
}

proof fn lemma_sorted_values_stable(d: Seq<Seq<u16>>, m: nat)
    requires
        256 <= m <= 65536,
        forall|i: int, j: int| 0 <= i < d.len() && 0 <= j < d[i].len() ==> #[trigger] d[i][j] < 256,
    ensures
        sorted_values(d, m) == sorted_values(d, 256),
    decreases m,
{
    if m > 256 {
        lemma_sorted_values_stable(d, (m - 1) as nat);
        if value_used(d, (m - 1) as u16) {
            let (i, j) = choose|i: int, j: int| 0 <= i < d.len() && 0 <= j < d[i].len() && #[trigger] d[i][j] == (m - 1) as u16;
            assert(d[i][j] < 256);
        }
        assert(sorted_values(d, m) =~= sorted_values(d, (m - 1) as nat));
    }
}

/// In a strictly ascending sequence a value sits at exactly one index.
proof fn lemma_value_index(vals: Seq<u16>, i: int)
    requires
        forall|a: int, b: int| 0 <= a < b < vals.len() ==> vals[a] < vals[b],
        0 <= i < vals.len(),
    ensures
        value_index(vals, vals[i]) == i as u8,
{
    let j = choose|j: int| 0 <= j < vals.len() && vals[j] == vals[i];
    if j < i {
        assert(vals[j] < vals[i]);
    } else if j > i {
        assert(vals[i] < vals[j]);
    }
}

fn value_index_table(vals: &Vec<u16>) -> (table: Vec<u8>)
    requires
        forall|a: int, b: int| 0 <= a < b < vals.len() ==> vals[a] < vals[b],
    ensures
        table.len() == 65536,
        forall|i: int| 0 <= i < vals.len() ==> table[vals[i] as int] == value_index(vals@, #[trigger] vals[i]),
{
    let mut table: Vec<u8> = vec![0u8; 65536];
    let mut i: usize = 0;
    while i < vals.len()
        invariant
            i <= vals.len(),
            table.len() == 65536,
            forall|a: int, b: int| 0 <= a < b < vals.len() ==> vals[a] < vals[b],
            forall|k: int| 0 <= k < i ==> table[vals[k] as int] == #[trigger] value_index(vals@, vals[k]),
        decreases vals.len() - i,
    {
        proof {
            lemma_value_index(vals@, i as int);
        }
        let ghost before = table@;
        table.set(vals[i] as usize, #[verifier::truncate] (i as u8));
        assert forall|k: int| 0 <= k < i + 1 implies table[vals[k] as int] == #[trigger] value_index(vals@, vals[k]) by {
            if k < i {
                assert(vals[k] < vals[i as int]);
                assert(table[vals[k] as int] == before[vals[k] as int]);
            }
        }
        i += 1;
    }
    table
}

fn flatten_blocks(
    block_list: &Vec<Vec<u16>>,
    order: &Vec<usize>,
    table: &Vec<u8>,
    quant: bool,
    Ghost(o): Ghost<Seq<nat>>,
    Ghost(vals): Ghost<Seq<u16>>,
) -> (flat: Vec<u8>)
    requires
        order.len() == o.len(),
        forall|i: int| 0 <= i < o.len() ==> order[i] as nat == #[trigger] o[i],
        forall|i: int| 0 <= i < o.len() ==> #[trigger] o[i] < block_list.len(),
        table.len() == 65536,
        quant ==> forall|v: u16| value_used(blocks_of(block_list@), v) ==> table[v as int] == #[trigger] value_index(vals, v),
    ensures
        flat@ == mapped_blocks(blocks_of(block_list@), o, o.len(), vals, quant),
{
    let ghost d = blocks_of(block_list@);
    let mut flat: Vec<u8> = Vec::new();
    let mut i: usize = 0;
    while i < order.len()
        invariant
            i <= order.len(),
            order.len() == o.len(),
            d == blocks_of(block_list@),
            forall|k: int| 0 <= k < o.len() ==> order[k] as nat == #[trigger] o[k],
            forall|k: int| 0 <= k < o.len() ==> #[trigger] o[k] < block_list.len(),
            table.len() == 65536,
            quant ==> forall|v: u16| value_used(d, v) ==> table[v as int] == #[trigger] value_index(vals, v),
            flat@ == mapped_blocks(d, o, i as nat, vals, quant),
        decreases order.len() - i,
    {
        let oi = order[i];
        assert(o[i as int] == oi);
        let blk = &block_list[oi];
        let ghost before = flat@;
        let mut j: usize = 0;
        while j < blk.len()
            invariant
                j <= blk.len(),
                blk@ == d[oi as int],
                oi < block_list.len(),
                d == blocks_of(block_list@),
                table.len() == 65536,
                quant ==> forall|v: u16| value_used(d, v) ==> table[v as int] == #[trigger] value_index(vals, v),
                flat@ == before + Seq::new(j as nat, |q: int| if quant { value_index(vals, blk@[q]) } else { blk@[q] as u8 }),
            decreases blk.len() - j,
        {
            let c = blk[j];
            let b: u8 = if quant {
                assert(value_used(d, c)) by {
                    assert(d[oi as int][j as int] == c);
                }
                table[c as usize]
            } else {
                #[verifier::truncate] (c as u8)
            };
            flat.push(b);
            assert(flat@ =~= before + Seq::new((j + 1) as nat, |q: int| if quant { value_index(vals, blk@[q]) } else { blk@[q] as u8 }));
            j += 1;
        }
        assert(flat@ =~= mapped_blocks(d, o, (i + 1) as nat, vals, quant));
        i += 1;
    }
    flat
}


/// Everything both encoding variants are built from.
struct MacroPlan {
    n_blocks: usize,
    macro_w: usize,
    macro_h: usize,
    map_bytes: Vec<u8>,
    macro_bpp: u8,
    vals: Vec<u16>,
    raw_flat: Vec<u8>,
    raw_bpp: u8,
    quant_flat: Vec<u8>,
    quant_bpp: u8,
}

spec fn plan_ok(p: MacroPlan, d: Seq<Seq<u16>>, slots: Seq<nat>, bw: nat, bh: nat, mw: nat, mh: nat) -> bool {
    let vals = cell_values(d);
    let o = macro_order(d, slots);
    &&& p.n_blocks == d.len()
    &&& d.len() <= 255
    &&& p.macro_w == mw
    &&& p.macro_h == mh
    &&& p.map_bytes@ == macro_map_bytes(d, slots)
    &&& p.macro_bpp as nat == min_bpp_spec(d.len())
    &&& p.vals@ == vals
    &&& p.raw_flat@ == mapped_blocks(d, o, d.len(), vals, false)
    &&& p.raw_bpp as nat == min_bpp_spec(max_value(vals) + 1)
    &&& p.quant_flat@ == mapped_blocks(d, o, d.len(), vals, true)
    &&& p.quant_bpp as nat == min_bpp_spec(vals.len())
    &&& p.macro_bpp <= 8
    &&& p.raw_bpp <= 8
    &&& p.quant_bpp <= 8
    &&& p.map_bytes.len() > 0 ==> mw > 0
    &&& bw > 0
    &&& vals.len() <= 256
}

proof fn lemma_min_bpp_small(n: nat)
    requires
        n <= 256,
    ensures
        min_bpp_spec(n) <= 8,
{
    if n > 1 {
        vstd::arithmetic::power2::lemma2_to64();
        lemma_bit_length_between((n - 1) as nat, 0, 8);
    }
}

proof fn lemma_mapped_blocks_len(d: Seq<Seq<u16>>, o: Seq<nat>, k: nat, vals: Seq<u16>, quant: bool, bl: nat)
    requires
        k <= o.len(),
        forall|i: int| 0 <= i < o.len() ==> #[trigger] o[i] < d.len(),
        forall|i: int| 0 <= i < d.len() ==> #[trigger] d[i].len() == bl,
    ensures
        mapped_blocks(d, o, k, vals, quant).len() == k * bl,
    decreases k,
{
    if k > 0 {
        lemma_mapped_blocks_len(d, o, (k - 1) as nat, vals, quant, bl);
        assert(o[k - 1] < d.len());
        assert(k * bl == (k - 1) * bl + bl) by (nonlinear_arith);
    } else {
        assert(0 * bl == 0);
    }
}

fn macro_plan(cells: &[u16], map_w: usize, map_h: usize, bw: usize, bh: usize, ox: usize, oy: usize) -> (r: Option<MacroPlan>)
    requires
        combo_ok(cells@, map_w as nat, map_h as nat, bw as nat, bh as nat, ox as nat, oy as nat),
    ensures
        match blocks_spec(cells@, map_w as nat, map_h as nat, bw as nat, bh as nat, ox as nat, oy as nat) {
            None => r is None,
            Some((d, slots)) => r matches Some(p) && plan_ok(
                p,
                d,
                slots,
                bw as nat,
                bh as nat,
                macro_dim(map_w as nat, ox as nat, bw as nat),
                macro_dim(map_h as nat, oy as nat, bh as nat),
            ),
        },
{
    let (block_list, macro_flat) = match build_blocks(cells, map_w, map_h, bw, bh, ox, oy) {
        None => return None,
        Some(p) => p,
    };
    let ghost bs = scan_blocks(cells@, map_w as nat, map_h as nat, bw as nat, bh as nat, ox as nat, oy as nat);
    let ghost d = blocks_of(block_list@);
    let ghost slots = block_slots(bs);
    let n_blocks = block_list.len();
    let macro_w: usize = (map_w + ox + bw - 1) / bw;
    let macro_h: usize = (map_h + oy + bh - 1) / bh;
    proof {
        assert(d == distinct_blocks(bs, bs.len()));
        assert(blocks_spec(cells@, map_w as nat, map_h as nat, bw as nat, bh as nat, ox as nat, oy as nat) is Some);
        assert(cells_fit_byte(cells@, map_w as nat, map_h as nat));
        lemma_distinct_from(bs, bs.len());
        lemma_scan_values_small(cells@, map_w as nat, map_h as nat, bw as nat, bh as nat, ox as nat, oy as nat);
        assert forall|t: int| 0 <= t < slots.len() implies #[trigger] slots[t] < n_blocks by {
            lemma_first_pos(d, bs[t], 0);
            lemma_distinct_member(bs, bs.len(), t);
            lemma_first_pos_contains(d, bs[t]);
        }
        assert forall|i: int, j: int| 0 <= i < d.len() && 0 <= j < d[i].len() implies #[trigger] d[i][j] < 256 by {
            let t = choose|t: int| 0 <= t < bs.len() && bs[t] == d[i];
            assert(bs[t][j] < 256);
        }
        assert forall|i: int| 0 <= i < d.len() implies #[trigger] d[i].len() == bw * bh by {
            let t = choose|t: int| 0 <= t < bs.len() && bs[t] == d[i];
        }
    }
    let freq = block_frequencies(&macro_flat, n_blocks, Ghost(slots));
    let ghost f = block_freq(slots, n_blocks as nat);
    let order = stable_freq_order(&freq, Ghost(f));
    let ghost o = freq_order(f, n_blocks as nat);
    proof {
        lemma_freq_order_len(f, n_blocks as nat);
    }
    let remap = remap_positions(&order, Ghost(o));
    let ghost rt = remap_table(o, n_blocks as nat, n_blocks as nat);
    let mut map_bytes: Vec<u8> = Vec::new();
    let mut t: usize = 0;
    while t < macro_flat.len()
        invariant
            t <= macro_flat.len(),
            macro_flat@.len() == slots.len(),
            forall|j: int| 0 <= j < slots.len() ==> macro_flat@[j] as nat == #[trigger] slots[j],
            forall|j: int| 0 <= j < slots.len() ==> #[trigger] slots[j] < n_blocks,
            remap.len() == n_blocks,
            forall|i: int| 0 <= i < n_blocks ==> remap[i] as nat == #[trigger] rt[i],
            map_bytes.len() == t,
            forall|j: int| 0 <= j < t ==> map_bytes[j] == #[trigger] (rt[slots[j] as int] as u8),
        decreases macro_flat.len() - t,
    {
        let idx = macro_flat[t] as usize;
        assert(slots[t as int] == idx);
        map_bytes.push(#[verifier::truncate] (remap[idx] as u8));
        t += 1;
    }
    assert(map_bytes@ =~= macro_map_bytes(d, slots));
    let macro_bpp = min_bpp(n_blocks);
    let vals = collect_values(&block_list);
    proof {
        lemma_sorted_values_stable(d, 65536);
        lemma_sorted_values(d, 256);
        lemma_sorted_values(d, 65536);
        lemma_min_bpp_small(n_blocks as nat);
        lemma_min_bpp_small(vals.len() as nat);
    }
    let max_cell: usize = if vals.len() == 0 { 0 } else { vals[vals.len() - 1] as usize };
    assert(max_cell < 256);
    let raw_bpp = min_bpp(max_cell + 1);
    proof {
        lemma_min_bpp_small((max_cell + 1) as nat);
    }
    let table = value_index_table(&vals);
    assert forall|v: u16| value_used(d, v) implies table[v as int] == #[trigger] value_index(vals@, v) by {
        assert(vals@.contains(v));
        let i = choose|i: int| 0 <= i < vals.len() && vals@[i] == v;
        assert(table[vals[i] as int] == value_index(vals@, vals[i]));
    }
    let raw_flat = flatten_blocks(&block_list, &order, &table, false, Ghost(o), Ghost(vals@));
    let quant_flat = flatten_blocks(&block_list, &order, &table, true, Ghost(o), Ghost(vals@));
    let quant_bpp = min_bpp(vals.len());
    proof {
        lemma_mapped_blocks_len(d, o, n_blocks as nat, vals@, false, (bw * bh) as nat);
        lemma_mapped_blocks_len(d, o, n_blocks as nat, vals@, true, (bw * bh) as nat);
        assert(n_blocks * (bw * bh) * 8 <= u32::MAX) by (nonlinear_arith)
            requires
                n_blocks <= 255,
                bw * bh * 255 * 8 <= u32::MAX,
        ;
        vstd::arithmetic::div_mod::lemma_fundamental_div_mod((map_w + ox + bw - 1) as int, bw as int);
        assert(map_bytes.len() > 0 ==> macro_w > 0) by (nonlinear_arith)
            requires
                map_bytes.len() == macro_w * macro_h,
        ;
    }
    Some(MacroPlan { n_blocks, macro_w, macro_h, map_bytes, macro_bpp, vals, raw_flat, raw_bpp, quant_flat, quant_bpp })
}

proof fn lemma_distinct_member(bs: Seq<Seq<u16>>, k: nat, t: int)
    requires
        k <= bs.len(),
        0 <= t < k,
    ensures
        distinct_blocks(bs, k).contains(bs[t]),
    decreases k,
{
    if t < k - 1 {
        lemma_distinct_member(bs, (k - 1) as nat, t);
        let d = distinct_blocks(bs, (k - 1) as nat);
        let w = choose|w: int| 0 <= w < d.len() && d[w] == bs[t];
        assert(distinct_blocks(bs, k)[w] == bs[t]);
    } else {
        let d = distinct_blocks(bs, (k - 1) as nat);
        if !d.contains(bs[t]) {
            assert(distinct_blocks(bs, k)[d.len() as int] == bs[t]);
        }
    }
}

/// Evaluate one (bw, bh, ox, oy) combination: `None` with more than 255
/// distinct blocks, else the block count and the smaller encoded size.
pub fn eval_combo(cells_flat: &[u16], map_w: usize, map_h: usize, bw: usize, bh: usize, ox: usize, oy: usize) -> (r: Option<MacroResult>)
    requires
        combo_ok(cells_flat@, map_w as nat, map_h as nat, bw as nat, bh as nat, ox as nat, oy as nat),
    ensures
        r == eval_spec(cells_flat@, map_w as nat, map_h as nat, bw as nat, bh as nat, ox as nat, oy as nat),
{
    let plan = match macro_plan(cells_flat, map_w, map_h, bw, bh, ox, oy) {
        None => return None,
        Some(p) => p,
    };
    let (macro_map_eg2, _m0, _o0) = eg2_encode_frame(plan.map_bytes.as_slice(), plan.macro_bpp, plan.macro_w, plan.macro_h);
    let macro_map_size = macro_map_eg2.len() + 1;
    assert(bh * plan.n_blocks <= u32::MAX) by (nonlinear_arith)
        requires
            plan.n_blocks <= 255,
            bw >= 1,
            bw * bh * 255 * 8 <= u32::MAX,
    ;
    let (defs_raw, _m1, _o1) = eg2_encode_frame(plan.raw_flat.as_slice(), plan.raw_bpp, bw, bh * plan.n_blocks);
    let block_defs_size_raw = defs_raw.len() + 1;
    let total_raw = 10 + block_defs_size_raw + macro_map_size;
    let (defs_quant, _m2, _o2) = eg2_encode_frame(plan.quant_flat.as_slice(), plan.quant_bpp, bw, bh * plan.n_blocks);
    let block_defs_size_quant = defs_quant.len() + 1;
    let palette_cost = plan.vals.len();
    let total_quant = 10 + palette_cost + block_defs_size_quant + macro_map_size;
    let (total, uses_palette) = if total_quant < total_raw { (total_quant, true) } else { (total_raw, false) };
    Some(MacroResult { bw, bh, ox, oy, n_blocks: plan.n_blocks, total, uses_palette })
}


/// Rows of the cell grid one after the other.
pub open spec fn flat_cells(grid: Seq<Vec<u16>>, k: nat) -> Seq<u16>
    decreases k,
{
    if k == 0 {
        seq![]
    } else {
        flat_cells(grid, (k - 1) as nat) + grid[k - 1]@
    }
}

/// Flatten a grid of cell rows.
pub fn flatten_cells(cell_grid: &[Vec<u16>]) -> (cells: Vec<u16>)
    ensures
        cells@ == flat_cells(cell_grid@, cell_grid.len() as nat),
{
    let mut cells: Vec<u16> = Vec::new();
    let mut k: usize = 0;
    while k < cell_grid.len()
        invariant
            k <= cell_grid.len(),
            cells@ == flat_cells(cell_grid@, k as nat),
        decreases cell_grid.len() - k,
    {
        let mut row = cell_grid[k].clone();
        cells.append(&mut row);
        k += 1;
    }
    cells
}

/// Whether block size `(bw, bh)` is tried on a `map_w` x `map_h` map: not 1x1,
/// within the map, and at most 48 cells.
pub open spec fn size_tried(bw: nat, bh: nat, map_w: nat, map_h: nat) -> bool {
    !(bw == 1 && bh == 1) && bw <= map_w && bh <= map_h && bw * bh <= 48
}

/// The jobs of size `(bw, bh)`: every offset, `oy` outer, `ox` inner.
pub open spec fn size_jobs(bw: nat, bh: nat) -> Seq<(usize, usize, usize, usize)> {
    Seq::new(bw * bh, |k: int| (bw as usize, bh as usize, (k % (bw as int)) as usize, (k / (bw as int)) as usize))
}

/// Jobs for the first `c` block sizes, sizes in order `bh` 1..=16 outer, `bw` 1..=16 inner.
pub open spec fn jobs_upto(map_w: nat, map_h: nat, c: nat) -> Seq<(usize, usize, usize, usize)>
    decreases c,
{
    if c == 0 {
        seq![]
    } else {
        let bw = ((c - 1) % 16 + 1) as nat;
        let bh = ((c - 1) / 16 + 1) as nat;
        jobs_upto(map_w, map_h, (c - 1) as nat) + if size_tried(bw, bh, map_w, map_h) {
            size_jobs(bw, bh)
        } else {
            seq![]
        }
    }
}

/// All (bw, bh, ox, oy) combinations tried on a map.
pub open spec fn macro_jobs_spec(map_w: nat, map_h: nat) -> Seq<(usize, usize, usize, usize)> {
    jobs_upto(map_w, map_h, 256)
}

proof fn lemma_jobs_shape(map_w: nat, map_h: nat, c: nat)
    requires
        c <= 256,
    ensures
        forall|i: int| 0 <= i < jobs_upto(map_w, map_h, c).len() ==> ({
            let j = #[trigger] jobs_upto(map_w, map_h, c)[i];
            &&& 1 <= j.0 <= 16
            &&& 1 <= j.1 <= 16
            &&& j.2 < j.0
            &&& j.3 < j.1
            &&& j.0 <= map_w
            &&& j.1 <= map_h
            &&& j.0 * j.1 <= 48
            &&& !(j.0 == 1 && j.1 == 1)
        }),
    decreases c,
{
    if c > 0 {
        lemma_jobs_shape(map_w, map_h, (c - 1) as nat);
        let bw = ((c - 1) % 16 + 1) as nat;
        let bh = ((c - 1) / 16 + 1) as nat;
        let prev = jobs_upto(map_w, map_h, (c - 1) as nat);
        let cur = jobs_upto(map_w, map_h, c);
        assert forall|i: int| 0 <= i < cur.len() implies ({
            let j = #[trigger] cur[i];
            &&& 1 <= j.0 <= 16
            &&& 1 <= j.1 <= 16
            &&& j.2 < j.0
            &&& j.3 < j.1
            &&& j.0 <= map_w
            &&& j.1 <= map_h
            &&& j.0 * j.1 <= 48
            &&& !(j.0 == 1 && j.1 == 1)
        }) by {
            if i < prev.len() {
                assert(cur[i] == prev[i]);
            } else {
                assert(size_tried(bw, bh, map_w, map_h));
                let k = i - prev.len();
                assert(cur[i] == size_jobs(bw, bh)[k]);
                vstd::arithmetic::div_mod::lemma_fundamental_div_mod(k, bw as int);
                vstd::arithmetic::div_mod::lemma_mod_pos_bound(k, bw as int);
                assert(k / (bw as int) < bh) by (nonlinear_arith)
                    requires
                        0 <= k < bw * bh,
                        k == bw * (k / (bw as int)) + k % (bw as int),
                        0 <= k % (bw as int),
                        bw >= 1,
                ;
                assert(0 <= k / (bw as int)) by (nonlinear_arith)
                    requires
                        k >= 0,
                        bw >= 1,
                ;
            }
        }
    }
}

/// The (bw, bh, ox, oy) combinations tried on a map.
pub fn macro_jobs(map_w: usize, map_h: usize) -> (jobs: Vec<(usize, usize, usize, usize)>)
    ensures
        jobs@ == macro_jobs_spec(map_w as nat, map_h as nat),
{
    let mut jobs: Vec<(usize, usize, usize, usize)> = Vec::new();
    let mut bh: usize = 1;
    while bh <= 16
        invariant
            1 <= bh <= 17,
            jobs@ == jobs_upto(map_w as nat, map_h as nat, ((bh - 1) * 16) as nat),
        decreases 17 - bh,
    {
        let mut bw: usize = 1;
        while bw <= 16
            invariant
                1 <= bh <= 16,
                1 <= bw <= 17,
                jobs@ == jobs_upto(map_w as nat, map_h as nat, ((bh - 1) * 16 + bw - 1) as nat),
            decreases 17 - bw,
        {
            let ghost c = ((bh - 1) * 16 + bw) as nat;
            assert((c - 1) % 16 + 1 == bw && (c - 1) / 16 + 1 == bh);
            let ghost before = jobs@;
            assert(bw * bh <= 256) by (nonlinear_arith)
                requires
                    bw <= 16,
                    bh <= 16,
            ;
            if !(bw == 1 && bh == 1) && !(bw > map_w || bh > map_h) && !(bw * bh > 48) {
                let mut oy: usize = 0;
                while oy < bh
                    invariant
                        1 <= bw <= 16,
                        1 <= bh <= 16,
                        oy <= bh,
                        jobs@ == before + size_jobs(bw as nat, bh as nat).take((oy * bw) as int),
                        oy * bw <= bw * bh,
                    decreases bh - oy,
                {
                    assert(oy * bw + bw <= bw * bh) by (nonlinear_arith)
                        requires
                            oy < bh,
                    ;
                    let mut ox: usize = 0;
                    while ox < bw
                        invariant
                            1 <= bw <= 16,
                            1 <= bh <= 16,
                            oy < bh,
                            ox <= bw,
                            oy * bw + bw <= bw * bh,
                            jobs@ == before + size_jobs(bw as nat, bh as nat).take((oy * bw + ox) as int),
                        decreases bw - ox,
                    {
                        proof {
                            vstd::arithmetic::div_mod::lemma_fundamental_div_mod_converse(
                                (oy * bw + ox) as int,
                                bw as int,
                                oy as int,
                                ox as int,
                            );
                        }
                        jobs.push((bw, bh, ox, oy));
                        assert(jobs@ =~= before + size_jobs(bw as nat, bh as nat).take((oy * bw + ox + 1) as int));
                        ox += 1;
                    }
                    assert((oy + 1) * bw == oy * bw + bw) by (nonlinear_arith);
                    if oy + 1 < bh {
                        assert((oy + 1) * bw + bw <= bw * bh) by (nonlinear_arith)
                            requires
                                oy + 1 < bh,
                        ;
                    }
                    oy += 1;
                }
                assert(oy * bw == bw * bh) by (nonlinear_arith)
                    requires
                        oy == bh,
                ;
                assert(size_jobs(bw as nat, bh as nat).take((bw * bh) as int) =~= size_jobs(bw as nat, bh as nat));
            } else {
                assert(jobs@ =~= before + Seq::<(usize, usize, usize, usize)>::empty());
            }
            assert(jobs@ == jobs_upto(map_w as nat, map_h as nat, c));
            bw += 1;
        }
        bh += 1;
    }
    jobs
}

/// Evaluates every job, in parallel; result `i` belongs to job `i`.
#[verifier::external_body]
fn par_eval_combos(cells_flat: &[u16], map_w: usize, map_h: usize, jobs: &Vec<(usize, usize, usize, usize)>) -> (results: Vec<Option<MacroResult>>)
    requires
        forall|i: int| 0 <= i < jobs.len() ==> combo_ok(
            cells_flat@,
            map_w as nat,
            map_h as nat,
            #[trigger] jobs[i].0 as nat,
            jobs[i].1 as nat,
            jobs[i].2 as nat,
            jobs[i].3 as nat,
        ),
    ensures
        results.len() == jobs.len(),
        forall|i: int| 0 <= i < jobs.len() ==> #[trigger] results[i] == eval_spec(
            cells_flat@,
            map_w as nat,
            map_h as nat,
            jobs[i].0 as nat,
            jobs[i].1 as nat,
            jobs[i].2 as nat,
            jobs[i].3 as nat,
        ),
{
    let mut results = Vec::new();
    jobs.par_iter().map(|&(bw, bh, ox, oy)| eval_combo(cells_flat, map_w, map_h, bw, bh, ox, oy)).collect_into_vec(&mut results);
    results
}


/// The first result of least total among the first `k` (later ones replace it
/// only when strictly smaller); `None` if none of them is `Some`.
pub open spec fn best_result(rs: Seq<Option<MacroResult>>, k: nat) -> Option<MacroResult>
    decreases k,
{
    if k == 0 {
        None
    } else {
        let b = best_result(rs, (k - 1) as nat);
        match rs[k - 1] {
            None => b,
            Some(r) => match b {
                None => Some(r),
                Some(x) => if r.total < x.total {
                    Some(r)
                } else {
                    b
                },
            },
        }
    }
}

proof fn lemma_best_result_from(rs: Seq<Option<MacroResult>>, k: nat)
    requires
        k <= rs.len(),
    ensures
        best_result(rs, k) matches Some(r) ==> exists|i: int| 0 <= i < k && rs[i] == Some(r),
    decreases k,
{
    if k > 0 {
        lemma_best_result_from(rs, (k - 1) as nat);
    }
}

/// Whether every cell is 0.
pub open spec fn all_zero(cells: Seq<u16>) -> bool {
    forall|i: int| 0 <= i < cells.len() ==> cells[i] == 0
}

/// Evaluation of every job of the map.
pub open spec fn macro_results(cells: Seq<u16>, map_w: nat, map_h: nat) -> Seq<Option<MacroResult>> {
    let jobs = macro_jobs_spec(map_w, map_h);
    Seq::new(jobs.len(), |i: int| eval_spec(cells, map_w, map_h, jobs[i].0 as nat, jobs[i].1 as nat, jobs[i].2 as nat, jobs[i].3 as nat))
}

/// The result the macro encoder keeps for a map.
pub open spec fn macro_best(cells: Seq<u16>, map_w: nat, map_h: nat) -> Option<MacroResult> {
    best_result(macro_results(cells, map_w, map_h), macro_jobs_spec(map_w, map_h).len())
}

/// Bits per value of the block definitions of a result.
pub open spec fn defs_bpp(d: Seq<Seq<u16>>, uses_palette: bool) -> nat {
    let vals = cell_values(d);
    if uses_palette { min_bpp_spec(vals.len()) } else { min_bpp_spec(max_value(vals) + 1) }
}

/// The encoded layer for a chosen result: header `[0xFF, bw, bh, ox, oy]`,
/// block count and definitions size (u16 LE each), the palette (its size then
/// its values, or a single 0), the definitions' bpp and EG-2 stream, then the
/// macro map's bpp and EG-2 stream.
pub open spec fn macro_bytes(cells: Seq<u16>, map_w: nat, map_h: nat, r: MacroResult) -> Seq<u8> {
    let (d, slots) = blocks_spec(cells, map_w, map_h, r.bw as nat, r.bh as nat, r.ox as nat, r.oy as nat).unwrap();
    let mw = macro_dim(map_w, r.ox as nat, r.bw as nat);
    let vals = cell_values(d);
    layer_bytes(
        r,
        d.len(),
        vals,
        defs_bpp(d, r.uses_palette) as u8,
        defs_stream(d, slots, r.bw as nat, r.uses_palette),
        min_bpp_spec(d.len()) as u8,
        map_stream(d, slots, mw),
    )
}

/// Layer bytes from their parts.
pub open spec fn layer_bytes(r: MacroResult, n: nat, vals: Seq<u16>, dbpp: u8, defs: Seq<u8>, mbpp: u8, map: Seq<u8>) -> Seq<u8> {
    seq![0xFFu8, r.bw as u8, r.bh as u8, r.ox as u8, r.oy as u8] + le16(n) + le16(1 + defs.len()) + (if r.uses_palette {
        seq![vals.len() as u8] + Seq::new(vals.len(), |i: int| vals[i] as u8)
    } else {
        seq![0u8]
    }) + seq![dbpp] + defs + seq![mbpp] + map
}

fn layer_out(r: MacroResult, n_blocks: usize, vals: &Vec<u16>, dbpp: u8, defs: &Vec<u8>, mbpp: u8, map: &Vec<u8>) -> (out: Vec<u8>)
    requires
        r.bw <= 16,
        r.bh <= 16,
        r.ox < 16,
        r.oy < 16,
        defs.len() < usize::MAX,
    ensures
        out@ == layer_bytes(r, n_blocks as nat, vals@, dbpp, defs@, mbpp, map@),
{
    let block_defs_total: usize = 1 + defs.len();
    let n_bvals = vals.len();
    let mut out: Vec<u8> = Vec::new();
    out.push(0xFF);
    out.push(r.bw as u8);
    out.push(r.bh as u8);
    out.push(r.ox as u8);
    out.push(r.oy as u8);
    out.push((n_blocks & 0xFF) as u8);
    out.push(((n_blocks >> 8) & 0xFF) as u8);
    out.push((block_defs_total & 0xFF) as u8);
    out.push(((block_defs_total >> 8) & 0xFF) as u8);
    assert(n_blocks & 0xFF == n_blocks % 256 && (n_blocks >> 8) & 0xFF == (n_blocks / 256) % 256) by (bit_vector);
    assert(block_defs_total & 0xFF == block_defs_total % 256 && (block_defs_total >> 8) & 0xFF == (block_defs_total / 256)
        % 256) by (bit_vector);
    let ghost head = out@;
    if r.uses_palette {
        out.push(#[verifier::truncate] (n_bvals as u8));
        let mut k: usize = 0;
        while k < n_bvals
            invariant
                k <= n_bvals,
                n_bvals == vals.len(),
                out@ == head + seq![n_bvals as u8] + Seq::new(k as nat, |i: int| vals@[i] as u8),
            decreases n_bvals - k,
        {
            out.push(#[verifier::truncate] (vals[k] as u8));
            assert(out@ =~= head + seq![n_bvals as u8] + Seq::new((k + 1) as nat, |i: int| vals@[i] as u8));
            k += 1;
        }
    } else {
        out.push(0);
    }
    out.push(dbpp);
    let mut defs_copy = defs.clone();
    out.append(&mut defs_copy);
    out.push(mbpp);
    let mut map_copy = map.clone();
    out.append(&mut map_copy);
    assert(out@ =~= layer_bytes(r, n_blocks as nat, vals@, dbpp, defs@, mbpp, map@));
    out
}

/// The description of an encoded layer:
/// "MACRO {bw}x{bh} off=({ox},{oy}) {n} blks {len}b (map:{m}b defs:{d}b[ pal:{p}b])".
pub open spec fn macro_desc(cells: Seq<u16>, map_w: nat, map_h: nat, r: MacroResult) -> Seq<char> {
    let (d, slots) = blocks_spec(cells, map_w, map_h, r.bw as nat, r.bh as nat, r.ox as nat, r.oy as nat).unwrap();
    let mw = macro_dim(map_w, r.ox as nat, r.bw as nat);
    desc_text(
        r.bw as nat,
        r.bh as nat,
        r.ox as nat,
        r.oy as nat,
        d.len(),
        macro_bytes(cells, map_w, map_h, r).len(),
        map_stream(d, slots, mw).len() + 1,
        r.uses_palette,
        cell_values(d).len(),
    )
}

/// The description text from its numbers.
pub open spec fn desc_text(bw: nat, bh: nat, ox: nat, oy: nat, n: nat, out_len: nat, map_len: nat, pal: bool, n_bvals: nat) -> Seq<char> {
    "MACRO "@ + decimal(bw) + "x"@ + decimal(bh) + " off=("@ + decimal(ox) + ","@ + decimal(oy) + ") "@ + decimal(n)
        + " blks "@ + decimal(out_len) + "b (map:"@ + decimal(map_len) + "b defs:"@ + decimal(
        (out_len - map_len - 8 - (if pal { n_bvals } else { 0 })) as nat,
    ) + "b"@ + (if pal { " pal:"@ + decimal(n_bvals + 1) + "b"@ } else { ""@ }) + ")"@
}

fn desc_string(bw: usize, bh: usize, ox: usize, oy: usize, n: usize, out_len: usize, map_len: usize, pal: bool, n_bvals: usize) -> (desc: String)
    requires
        out_len >= map_len + 8 + (if pal { n_bvals } else { 0 }),
        n_bvals < usize::MAX,
    ensures
        desc@ == desc_text(bw as nat, bh as nat, ox as nat, oy as nat, n as nat, out_len as nat, map_len as nat, pal, n_bvals as nat),
{
    let pal_cost: usize = if pal { n_bvals } else { 0 };
    let mut desc = String::new();
    desc.append("MACRO ");
    push_decimal(&mut desc, bw);
    desc.append("x");
    push_decimal(&mut desc, bh);
    desc.append(" off=(");
    push_decimal(&mut desc, ox);
    desc.append(",");
    push_decimal(&mut desc, oy);
    desc.append(") ");
    push_decimal(&mut desc, n);
    desc.append(" blks ");
    push_decimal(&mut desc, out_len);
    desc.append("b (map:");
    push_decimal(&mut desc, map_len);
    desc.append("b defs:");
    push_decimal(&mut desc, out_len - map_len - 8 - pal_cost);
    desc.append("b");
    let ghost before = desc@;
    if pal {
        desc.append(" pal:");
        push_decimal(&mut desc, n_bvals + 1);
        desc.append("b");
    } else {
        desc.append("");
    }
    desc.append(")");
    desc
}

/// What a non-empty layer needs: a map inside the cells, small enough for the
/// i32 geometry, with cells that fit a byte when some combination has at most
/// 255 distinct blocks to code.
pub open spec fn layer_ok(cells: Seq<u16>, map_w: nat, map_h: nat) -> bool {
    &&& map_w + 32 <= i32::MAX
    &&& map_h + 32 <= i32::MAX
    &&& map_w * map_h <= cells.len()
    &&& forall|j: int|
        0 <= j < macro_jobs_spec(map_w, map_h).len() && blocks_spec(
            cells,
            map_w,
            map_h,
            #[trigger] macro_jobs_spec(map_w, map_h)[j].0 as nat,
            macro_jobs_spec(map_w, map_h)[j].1 as nat,
            macro_jobs_spec(map_w, map_h)[j].2 as nat,
            macro_jobs_spec(map_w, map_h)[j].3 as nat,
        ) is Some ==> cells_fit_byte(cells, map_w, map_h)
}

proof fn lemma_jobs_ok(cells: Seq<u16>, map_w: nat, map_h: nat)
    requires
        layer_ok(cells, map_w, map_h),
    ensures
        forall|i: int| 0 <= i < macro_jobs_spec(map_w, map_h).len() ==> combo_ok(
            cells,
            map_w,
            map_h,
            #[trigger] macro_jobs_spec(map_w, map_h)[i].0 as nat,
            macro_jobs_spec(map_w, map_h)[i].1 as nat,
            macro_jobs_spec(map_w, map_h)[i].2 as nat,
            macro_jobs_spec(map_w, map_h)[i].3 as nat,
        ),
{
    lemma_jobs_shape(map_w, map_h, 256);
    let jobs = macro_jobs_spec(map_w, map_h);
    assert forall|i: int| 0 <= i < jobs.len() implies combo_ok(
        cells,
        map_w,
        map_h,
        #[trigger] jobs[i].0 as nat,
        jobs[i].1 as nat,
        jobs[i].2 as nat,
        jobs[i].3 as nat,
    ) by {
        let j = jobs[i];
        let bw = j.0 as nat;
        let bh = j.1 as nat;
        assert(bw * bh * 255 * 8 <= 48 * 255 * 8) by (nonlinear_arith)
            requires
                bw * bh <= 48,
        ;
    }
}

fn pick_best(results: &Vec<Option<MacroResult>>) -> (best: Option<MacroResult>)
    ensures
        best == best_result(results@, results.len() as nat),
{
    let mut best: Option<MacroResult> = None;
    let mut i: usize = 0;
    while i < results.len()
        invariant
            i <= results.len(),
            best == best_result(results@, i as nat),
        decreases results.len() - i,
    {
        match results[i] {
            None => {},
            Some(r) => {
                let replace = match best {
                    None => true,
                    Some(x) => r.total < x.total,
                };
                if replace {
                    best = Some(r);
                }
            },
        }
        i += 1;
    }
    best
}

/// Try macro-tile encoding for a layer. Returns (encoded_bytes, description).
/// Tests all block sizes from 1x2 to MAX_BLOCK x MAX_BLOCK with all offsets.
pub fn encode_layer_macro(cell_grid: &[Vec<u16>], map_w: usize, map_h: usize, label: &str) -> (res: (Vec<u8>, String))
    requires
        !all_zero(flat_cells(cell_grid@, cell_grid.len() as nat)) ==> layer_ok(
            flat_cells(cell_grid@, cell_grid.len() as nat),
            map_w as nat,
            map_h as nat,
        ),
    ensures
        ({
            let cells = flat_cells(cell_grid@, cell_grid.len() as nat);
            if all_zero(cells) {
                res.0@ == Seq::new(99999, |i: int| 0u8) && res.1@ == "MACRO: empty layer"@
            } else {
                match macro_best(cells, map_w as nat, map_h as nat) {
                    None => res.0@ == Seq::new(99999, |i: int| 0u8) && res.1@ == "MACRO: no valid result"@,
                    Some(r) => res.0@ == macro_bytes(cells, map_w as nat, map_h as nat, r) && res.1@ == macro_desc(
                        cells,
                        map_w as nat,
                        map_h as nat,
                        r,
                    ),
                }
            }
        }),
{
    let cells_flat = flatten_cells(cell_grid);
    let ghost cells = cells_flat@;
    let mut k: usize = 0;
    let mut nonzero = false;
    while k < cells_flat.len()
        invariant
            k <= cells_flat.len(),
            !nonzero ==> forall|i: int| 0 <= i < k ==> cells_flat@[i] == 0,
            nonzero ==> !all_zero(cells_flat@),
        decreases cells_flat.len() - k,
    {
        if cells_flat[k] != 0 {
            nonzero = true;
        }
        k += 1;
    }
    if !nonzero {
        return (vec![0u8; 99999], String::from_str("MACRO: empty layer"));
    }
    let jobs = macro_jobs(map_w, map_h);
    proof {
        lemma_jobs_ok(cells, map_w as nat, map_h as nat);
    }
    let results = par_eval_combos(cells_flat.as_slice(), map_w, map_h, &jobs);
    let ghost rs = macro_results(cells, map_w as nat, map_h as nat);
    assert(results@ =~= rs);
    let best = pick_best(&results);
    let best = match best {
        None => return (vec![0u8; 99999], String::from_str("MACRO: no valid result")),
        Some(b) => b,
    };
    proof {
        lemma_best_result_from(rs, rs.len());
    }
    let ghost bi = choose|bi: int| 0 <= bi < rs.len() && rs[bi] == Some(best);
    proof {
        lemma_jobs_shape(map_w as nat, map_h as nat, 256);
        assert(jobs@[bi].0 == best.bw && jobs@[bi].1 == best.bh && jobs@[bi].2 == best.ox && jobs@[bi].3 == best.oy);
    }
    assert(combo_ok(cells, map_w as nat, map_h as nat, best.bw as nat, best.bh as nat, best.ox as nat, best.oy as nat));
    let bw = best.bw;
    let bh = best.bh;
    let ox = best.ox;
    let oy = best.oy;
    let plan = macro_plan(cells_flat.as_slice(), map_w, map_h, bw, bh, ox, oy).unwrap();
    encode_with_plan(plan, best, Ghost(cells), map_w, map_h)
}

#[verifier::spinoff_prover]
fn encode_with_plan(plan: MacroPlan, best: MacroResult, Ghost(cells): Ghost<Seq<u16>>, map_w: usize, map_h: usize) -> (res: (Vec<u8>, String))
    requires
        combo_ok(cells, map_w as nat, map_h as nat, best.bw as nat, best.bh as nat, best.ox as nat, best.oy as nat),
        blocks_spec(cells, map_w as nat, map_h as nat, best.bw as nat, best.bh as nat, best.ox as nat, best.oy as nat) matches Some(
            (d, slots),
        ) && plan_ok(
            plan,
            d,
            slots,
            best.bw as nat,
            best.bh as nat,
            macro_dim(map_w as nat, best.ox as nat, best.bw as nat),
            macro_dim(map_h as nat, best.oy as nat, best.bh as nat),
        ),
        best.bw <= 16,
        best.bh <= 16,
        best.ox < 16,
        best.oy < 16,
    ensures
        res.0@ == macro_bytes(cells, map_w as nat, map_h as nat, best),
        res.1@ == macro_desc(cells, map_w as nat, map_h as nat, best),
{
    let ghost (d, slots) = blocks_spec(cells, map_w as nat, map_h as nat, best.bw as nat, best.bh as nat, best.ox as nat, best.oy as nat).unwrap();
    let bw = best.bw;
    let bh = best.bh;
    assert(bh * plan.n_blocks <= u32::MAX) by (nonlinear_arith)
        requires
            plan.n_blocks <= 255,
            bh <= 16,
    ;
    let (macro_map_eg2, _m0, _o0) = eg2_encode_frame(plan.map_bytes.as_slice(), plan.macro_bpp, plan.macro_w, plan.macro_h);
    let (block_defs_eg2, _m1, _o1) = if best.uses_palette {
        eg2_encode_frame(plan.quant_flat.as_slice(), plan.quant_bpp, bw, bh * plan.n_blocks)
    } else {
        eg2_encode_frame(plan.raw_flat.as_slice(), plan.raw_bpp, bw, bh * plan.n_blocks)
    };
    let n_blocks = plan.n_blocks;
    let n_bvals = plan.vals.len();
    let dbpp: u8 = if best.uses_palette { plan.quant_bpp } else { plan.raw_bpp };
    let out = layer_out(best, n_blocks, &plan.vals, dbpp, &block_defs_eg2, plan.macro_bpp, &macro_map_eg2);
    assert(out@ == macro_bytes(cells, map_w as nat, map_h as nat, best));
    let out_len = out.len();
    let map_len = macro_map_eg2.len() + 1;
    let desc = desc_string(bw, bh, best.ox, best.oy, n_blocks, out_len, map_len, best.uses_palette, n_bvals);
    (out, desc)
}

proof fn lemma_distinct_contains(bs: Seq<Seq<u16>>, k: nat)
    requires
        k <= bs.len(),
    ensures
        forall|j: int| 0 <= j < k ==> #[trigger] distinct_blocks(bs, k).contains(bs[j]),
    decreases k,
{
    if k > 0 {
        lemma_distinct_contains(bs, (k - 1) as nat);
        let d = distinct_blocks(bs, (k - 1) as nat);
        assert forall|j: int| 0 <= j < k implies #[trigger] distinct_blocks(bs, k).contains(bs[j]) by {
            if j < k - 1 {
                assert(d.contains(bs[j]));
                let i = choose|i: int| 0 <= i < d.len() && d[i] == bs[j];
                assert(distinct_blocks(bs, k)[i] == bs[j]);
            } else if !d.contains(bs[k - 1]) {
                assert(distinct_blocks(bs, k)[d.len() as int] == bs[j]);
            }
        }
    }
}

/// Each block in scan order is the distinct block its slot names.
pub proof fn block_slots_reproduce(bs: Seq<Seq<u16>>, t: int)
    requires
        0 <= t < bs.len(),
    ensures
        block_slots(bs)[t] < distinct_blocks(bs, bs.len()).len(),
        distinct_blocks(bs, bs.len())[block_slots(bs)[t] as int] == bs[t],
{
    let d = distinct_blocks(bs, bs.len());
    lemma_distinct_contains(bs, bs.len());
    assert(d.contains(bs[t]));
    lemma_first_pos_contains(d, bs[t]);
    lemma_first_pos(d, bs[t], 0);
}

proof fn lemma_freq_order_perm(freq: Seq<nat>, k: nat)
    ensures
        forall|a: int, b: int| 0 <= a < b < k ==> freq_order(freq, k)[a] != freq_order(freq, k)[b],
        forall|s: nat| s < k ==> #[trigger] freq_order(freq, k).contains(s),
    decreases k,
{
    lemma_freq_order_len(freq, k);
    if k > 0 {
        lemma_freq_order_perm(freq, (k - 1) as nat);
        lemma_freq_order_len(freq, (k - 1) as nat);
        let o = freq_order(freq, (k - 1) as nat);
        lemma_count_at_least_bound(o, freq, freq[k - 1]);
        let p = count_at_least(o, freq, freq[k - 1]) as int;
        let o2 = freq_order(freq, k);
        assert(o2 == o.insert(p, (k - 1) as nat));
        assert forall|a: int, b: int| 0 <= a < b < k implies o2[a] != o2[b] by {
            if a < p && b < p {
            } else if a < p && b == p {
                assert(o[a] < k - 1);
            } else if a < p && b > p {
                assert(o2[b] == o[b - 1]);
            } else if a == p {
                assert(o2[b] == o[b - 1]);
                assert(o[b - 1] < k - 1);
            } else {
                assert(o2[a] == o[a - 1] && o2[b] == o[b - 1]);
            }
        }
        assert forall|s: nat| s < k implies #[trigger] o2.contains(s) by {
            if s == k - 1 {
                assert(o2[p] == s);
            } else {
                assert(o.contains(s));
                let i = choose|i: int| 0 <= i < o.len() && o[i] == s;
                if i < p {
                    assert(o2[i] == s);
                } else {
                    assert(o2[i + 1] == s);
                }
            }
        }
    }
}

proof fn lemma_remap_inverse(o: Seq<nat>, n: nat, k: nat)
    requires
        k <= o.len(),
        forall|i: int| 0 <= i < o.len() ==> #[trigger] o[i] < n,
        forall|a: int, b: int| 0 <= a < b < o.len() ==> o[a] != o[b],
    ensures
        remap_table(o, n, k).len() == n,
        forall|j: int| 0 <= j < k ==> #[trigger] remap_table(o, n, k)[o[j] as int] == j,
    decreases k,
{
    if k > 0 {
        lemma_remap_inverse(o, n, (k - 1) as nat);
        assert forall|j: int| 0 <= j < k implies #[trigger] remap_table(o, n, k)[o[j] as int] == j by {
            if j < k - 1 {
                assert(o[j] != o[k - 1]);
            }
        }
    }
}

/// The frequency order lists every distinct block once, and the remap table
/// inverts it: the definition stored at a block's new index is that block.
pub proof fn macro_order_inverts(d: Seq<Seq<u16>>, slots: Seq<nat>, s: nat)
    requires
        s < d.len(),
    ensures
        remap_table(macro_order(d, slots), d.len(), d.len())[s as int] < d.len(),
        macro_order(d, slots)[remap_table(macro_order(d, slots), d.len(), d.len())[s as int] as int] == s,
{
    let n = d.len();
    let f = block_freq(slots, n);
    let o = macro_order(d, slots);
    lemma_freq_order_len(f, n);
    lemma_freq_order_perm(f, n);
    lemma_remap_inverse(o, n, n);
    assert(o.contains(s));
    let j = choose|j: int| 0 <= j < o.len() && o[j] == s;
    assert(remap_table(o, n, n)[o[j] as int] == j);
}

/// The macro map and the reordered definitions give back every block: block
/// `t` in scan order is the definition whose new index the map holds for it.
pub proof fn macro_map_reproduces_blocks(cells: Seq<u16>, map_w: nat, map_h: nat, bw: nat, bh: nat, ox: nat, oy: nat, t: int)
    requires
        blocks_spec(cells, map_w, map_h, bw, bh, ox, oy) is Some,
        0 <= t < scan_blocks(cells, map_w, map_h, bw, bh, ox, oy).len(),
    ensures
        ({
            let (d, slots) = blocks_spec(cells, map_w, map_h, bw, bh, ox, oy).unwrap();
            let m = macro_map_bytes(d, slots)[t];
            &&& m < d.len()
            &&& d[macro_order(d, slots)[m as int] as int] == scan_blocks(cells, map_w, map_h, bw, bh, ox, oy)[t]
        }),
{
    let bs = scan_blocks(cells, map_w, map_h, bw, bh, ox, oy);
    let (d, slots) = blocks_spec(cells, map_w, map_h, bw, bh, ox, oy).unwrap();
    block_slots_reproduce(bs, t);
    let s = slots[t];
    macro_order_inverts(d, slots, s);
    let rt = remap_table(macro_order(d, slots), d.len(), d.len());
    assert(rt[s as int] < 255);
    assert(macro_map_bytes(d, slots)[t] == rt[s as int] as u8);
}

/// Every map cell lies in one block: cell `(y, x)` is entry `(dy, dx)` of the
/// block at macro position `(mx, my)`, where `x + ox = mx * bw + dx` and
/// `y + oy = my * bh + dy`.
pub proof fn scan_blocks_cover_map(cells: Seq<u16>, map_w: nat, map_h: nat, bw: nat, bh: nat, ox: nat, oy: nat, y: nat, x: nat)
    requires
        bw >= 1,
        bh >= 1,
        y < map_h,
        x < map_w,
    ensures
        ({
            let mw = macro_dim(map_w, ox, bw);
            let mx = (x + ox) / bw;
            let my = (y + oy) / bh;
            let t = my * mw + mx;
            let k = ((y + oy) % bh) * bw + (x + ox) % bw;
            &&& t < scan_blocks(cells, map_w, map_h, bw, bh, ox, oy).len()
            &&& k < bw * bh
            &&& scan_blocks(cells, map_w, map_h, bw, bh, ox, oy)[t as int][k as int] == cells[(y * map_w + x) as int]
        }),
{
    let mw = macro_dim(map_w, ox, bw);
    let mh = macro_dim(map_h, oy, bh);
    let mx = (x + ox) / bw;
    let my = (y + oy) / bh;
    let dx = (x + ox) % bw;
    let dy = (y + oy) % bh;
    vstd::arithmetic::div_mod::lemma_fundamental_div_mod((x + ox) as int, bw as int);
    vstd::arithmetic::div_mod::lemma_fundamental_div_mod((y + oy) as int, bh as int);
    vstd::arithmetic::div_mod::lemma_mod_pos_bound((x + ox) as int, bw as int);
    vstd::arithmetic::div_mod::lemma_mod_pos_bound((y + oy) as int, bh as int);
    vstd::arithmetic::div_mod::lemma_fundamental_div_mod((map_w + ox + bw - 1) as int, bw as int);
    vstd::arithmetic::div_mod::lemma_fundamental_div_mod((map_h + oy + bh - 1) as int, bh as int);
    vstd::arithmetic::div_mod::lemma_mod_pos_bound((map_w + ox + bw - 1) as int, bw as int);
    vstd::arithmetic::div_mod::lemma_mod_pos_bound((map_h + oy + bh - 1) as int, bh as int);
    assert(mx < mw) by (nonlinear_arith)
        requires
            x + ox == bw * mx + dx,
            0 <= dx < bw,
            map_w + ox + bw - 1 == bw * mw + (map_w + ox + bw - 1) % (bw as int),
            0 <= (map_w + ox + bw - 1) % (bw as int) < bw,
            x < map_w,
            bw >= 1,
    ;
    assert(my < mh) by (nonlinear_arith)
        requires
            y + oy == bh * my + dy,
            0 <= dy < bh,
            map_h + oy + bh - 1 == bh * mh + (map_h + oy + bh - 1) % (bh as int),
            0 <= (map_h + oy + bh - 1) % (bh as int) < bh,
            y < map_h,
            bh >= 1,
    ;
    let t = my * mw + mx;
    assert(t < mw * mh) by (nonlinear_arith)
        requires
            mx < mw,
            my < mh,
            t == my * mw + mx,
    ;
    vstd::arithmetic::div_mod::lemma_fundamental_div_mod_converse(t as int, mw as int, my as int, mx as int);
    lemma_block_at_index(cells, map_w, map_h, bw, bh, ox, oy, mx, my, dx, dy);
    assert(my * bh + dy - oy == y) by (nonlinear_arith)
        requires
            y + oy == bh * my + dy,
    ;
    assert(mx * bw + dx - ox == x) by (nonlinear_arith)
        requires
            x + ox == bw * mx + dx,
    ;
}

proof fn lemma_mapped_blocks_at(d: Seq<Seq<u16>>, o: Seq<nat>, k: nat, vals: Seq<u16>, quant: bool, bl: nat, j: nat, i: nat)
    requires
        j < k,
        i < bl,
        forall|a: int| 0 <= a < k ==> #[trigger] o[a] < d.len(),
        forall|a: int| 0 <= a < d.len() ==> #[trigger] d[a].len() == bl,
    ensures
        mapped_blocks(d, o, k, vals, quant).len() == k * bl,
        mapped_blocks(d, o, k, vals, quant)[(j * bl + i) as int] == if quant {
            value_index(vals, d[o[j as int] as int][i as int])
        } else {
            d[o[j as int] as int][i as int] as u8
        },
    decreases k,
{
    lemma_mapped_blocks_size(d, o, (k - 1) as nat, vals, quant, bl);
    assert(d[o[k - 1] as int].len() == bl);
    assert(k * bl == (k - 1) * bl + bl) by (nonlinear_arith);
    if j < k - 1 {
        lemma_mapped_blocks_at(d, o, (k - 1) as nat, vals, quant, bl, j, i);
        assert(j * bl + i < (k - 1) * bl) by (nonlinear_arith)
            requires
                j < k - 1,
                i < bl,
        ;
    }
}

proof fn lemma_mapped_blocks_size(d: Seq<Seq<u16>>, o: Seq<nat>, k: nat, vals: Seq<u16>, quant: bool, bl: nat)
    requires
        forall|a: int| 0 <= a < k ==> #[trigger] o[a] < d.len(),
        forall|a: int| 0 <= a < d.len() ==> #[trigger] d[a].len() == bl,
    ensures
        mapped_blocks(d, o, k, vals, quant).len() == k * bl,
    decreases k,
{
    if k > 0 {
        lemma_mapped_blocks_size(d, o, (k - 1) as nat, vals, quant, bl);
        assert(d[o[k - 1] as int].len() == bl);
        assert(k * bl == (k - 1) * bl + bl) by (nonlinear_arith);
    } else {
        assert(0 * bl == 0);
    }
}

/// The block definitions read back: entry `i` of definition `j` is stored
/// as its value (when no palette is used) or as the value's index in the
/// palette of the definitions' values (when one is), and the palette entry
/// at that index is the value.
pub proof fn macro_defs_roundtrip(d: Seq<Seq<u16>>, slots: Seq<nat>, quant: bool, bl: nat, j: nat, i: nat)
    requires
        j < d.len(),
        i < bl,
        forall|a: int| 0 <= a < d.len() ==> #[trigger] d[a].len() == bl,
        forall|a: int, b: int| 0 <= a < d.len() && 0 <= b < d[a].len() ==> #[trigger] d[a][b] < 256,
    ensures
        ({
            let o = macro_order(d, slots);
            let vals = cell_values(d);
            let byte = mapped_blocks(d, o, d.len(), vals, quant)[(j * bl + i) as int];
            let v = d[o[j as int] as int][i as int];
            if quant {
                byte < vals.len() && vals[byte as int] == v
            } else {
                byte as u16 == v
            }
        }),
{
    let n = d.len();
    let f = block_freq(slots, n);
    let o = macro_order(d, slots);
    let vals = cell_values(d);
    lemma_freq_order_len(f, n);
    lemma_mapped_blocks_at(d, o, n, vals, quant, bl, j, i);
    let v = d[o[j as int] as int][i as int];
    assert(o[j as int] < n);
    assert(v < 256);
    if quant {
        lemma_sorted_values_stable(d, 65536);
        lemma_sorted_values(d, 256);
        assert(value_used(d, v));
        assert(vals.contains(v));
        let k = choose|k: int| 0 <= k < vals.len() && vals[k] == v;
        lemma_value_index(vals, k);
    }
}

proof fn lemma_best_result_least(rs: Seq<Option<MacroResult>>, k: nat, i: int)
    requires
        k <= rs.len(),
        0 <= i < k,
        rs[i] is Some,
    ensures
        best_result(rs, k) is Some,
        best_result(rs, k).unwrap().total <= rs[i].unwrap().total,
    decreases k,
{
    if i < k - 1 {
        lemma_best_result_least(rs, (k - 1) as nat, i);
    }
}

/// The search keeps a combination of least total size: whenever some block
/// size and offset gives a result, the kept result is one of those found and
/// is no larger than any of them.
pub proof fn macro_best_is_least(cells: Seq<u16>, map_w: nat, map_h: nat, i: int)
    requires
        0 <= i < macro_jobs_spec(map_w, map_h).len(),
        macro_results(cells, map_w, map_h)[i] is Some,
    ensures
        macro_best(cells, map_w, map_h) is Some,
        macro_best(cells, map_w, map_h).unwrap().total <= macro_results(cells, map_w, map_h)[i].unwrap().total,
        exists|j: int|
            0 <= j < macro_jobs_spec(map_w, map_h).len() && macro_results(cells, map_w, map_h)[j] == macro_best(cells, map_w, map_h),
{
    let rs = macro_results(cells, map_w, map_h);
    lemma_best_result_least(rs, rs.len(), i);
    lemma_best_result_from(rs, rs.len());
}

proof fn lemma_written_at_total(cells: Seq<u16>, map_w: nat, map_h: nat, bw: nat, bh: nat, ox: nat, oy: nat)
    requires
        eval_spec(cells, map_w, map_h, bw, bh, ox, oy) is Some,
        bw < 256 && bh < 256 && ox < 256 && oy < 256,
    ensures
        ({
            let r = eval_spec(cells, map_w, map_h, bw, bh, ox, oy).unwrap();
            let b = macro_bytes(cells, map_w, map_h, r);
            &&& r.bw == bw && r.bh == bh && r.ox == ox && r.oy == oy
            &&& b.len() as usize == r.total
            &&& b[0] == 0xFFu8
            &&& b.subrange(1, 5) == seq![bw as u8, bh as u8, ox as u8, oy as u8]
        }),
{
    let r = eval_spec(cells, map_w, map_h, bw, bh, ox, oy).unwrap();
    let (d, slots) = blocks_spec(cells, map_w, map_h, bw, bh, ox, oy).unwrap();
    let mw = macro_dim(map_w, ox, bw);
    let vals = cell_values(d);
    let defs = defs_stream(d, slots, bw, r.uses_palette);
    let map = map_stream(d, slots, mw);
    let b = macro_bytes(cells, map_w, map_h, r);
    assert(b == layer_bytes(r, d.len(), vals, defs_bpp(d, r.uses_palette) as u8, defs, min_bpp_spec(d.len()) as u8, map));
    assert(b.len() == if r.uses_palette { total_quant(d, slots, bw, mw) } else { total_raw(d, slots, bw, mw) });
    assert(b.subrange(1, 5) =~= seq![bw as u8, bh as u8, ox as u8, oy as u8]);
}

/// The macro layer is a combination that the search may pick, written at the
/// size the search counted for it: when a result is kept, its block size and
/// offsets (the header's bytes 1 to 4) are an admissible combination (not
/// 1 x 1, at most 16 x 16 and 48 cells, within the map, offsets inside the
/// block), and the bytes written for it are exactly its counted total.
pub proof fn macro_best_written_at_total(cells: Seq<u16>, map_w: nat, map_h: nat)
    requires
        macro_best(cells, map_w, map_h) is Some,
    ensures
        ({
            let r = macro_best(cells, map_w, map_h).unwrap();
            &&& !(r.bw == 1 && r.bh == 1)
            &&& 1 <= r.bw <= 16 && r.bw <= map_w
            &&& 1 <= r.bh <= 16 && r.bh <= map_h
            &&& r.bw * r.bh <= 48
            &&& r.ox < r.bw && r.oy < r.bh
            &&& macro_bytes(cells, map_w, map_h, r).len() as usize == r.total
            &&& macro_bytes(cells, map_w, map_h, r)[0] == 0xFFu8
            &&& macro_bytes(cells, map_w, map_h, r).subrange(1, 5) == seq![r.bw as u8, r.bh as u8, r.ox as u8, r.oy as u8]
        }),
{
    let rs = macro_results(cells, map_w, map_h);
    let jobs = macro_jobs_spec(map_w, map_h);
    lemma_best_result_from(rs, rs.len());
    let r = macro_best(cells, map_w, map_h).unwrap();
    let j = choose|j: int| 0 <= j < rs.len() && rs[j] == Some(r);
    lemma_jobs_shape(map_w, map_h, 256);
    let jb = jobs[j];
    assert(rs[j] == eval_spec(cells, map_w, map_h, jb.0 as nat, jb.1 as nat, jb.2 as nat, jb.3 as nat));
    lemma_written_at_total(cells, map_w, map_h, jb.0 as nat, jb.1 as nat, jb.2 as nat, jb.3 as nat);
}

/// The palette of a macro layer reads back the block values: when a layer is
/// written with a palette, byte 9 is the number of palette entries, the entries
/// (from byte 10) are the distinct cell values of the blocks in ascending
/// order, and each quantized definition entry indexes the palette entry
/// holding its cell value.
pub proof fn macro_palette_reads_back(cells: Seq<u16>, map_w: nat, map_h: nat, r: MacroResult)
    requires
        blocks_spec(cells, map_w, map_h, r.bw as nat, r.bh as nat, r.ox as nat, r.oy as nat) is Some,
        r.uses_palette,
        cells_fit_byte(cells, map_w, map_h),
    ensures
        ({
            let (d, slots) = blocks_spec(cells, map_w, map_h, r.bw as nat, r.bh as nat, r.ox as nat, r.oy as nat).unwrap();
            let o = macro_order(d, slots);
            let bl = (r.bw * r.bh) as int;
            let n = cell_values(d).len() as int;
            let q = mapped_blocks(d, o, d.len(), cell_values(d), true);
            let b = macro_bytes(cells, map_w, map_h, r);
            let pal = b.subrange(10, 10 + n);
            &&& b.len() >= 10 + n
            &&& b[9] == n as u8
            &&& forall|k: int, k2: int| 0 <= k < k2 < n ==> #[trigger] pal[k] < #[trigger] pal[k2]
            &&& forall|k: int| 0 <= k < n ==> exists|a: int, e: int|
                0 <= a < d.len() && 0 <= e < d[a].len() && #[trigger] d[a][e] as u8 == #[trigger] pal[k]
            &&& forall|t: int, e: int|
                0 <= t < d.len() && 0 <= e < bl ==> #[trigger] q[t * bl + e] < n && pal[q[t * bl + e] as int] == d[o[t] as int][e] as u8
        }),
{
    let bw = r.bw as nat;
    let bh = r.bh as nat;
    let (d, slots) = blocks_spec(cells, map_w, map_h, bw, bh, r.ox as nat, r.oy as nat).unwrap();
    let bs = scan_blocks(cells, map_w, map_h, bw, bh, r.ox as nat, r.oy as nat);
    assert(d == distinct_blocks(bs, bs.len()));
    lemma_distinct_from(bs, bs.len());
    lemma_scan_values_small(cells, map_w, map_h, bw, bh, r.ox as nat, r.oy as nat);
    let bl = (r.bw * r.bh) as int;
    assert forall|i: int, j: int| 0 <= i < d.len() && 0 <= j < d[i].len() implies #[trigger] d[i][j] < 256 by {
        let t = choose|t: int| 0 <= t < bs.len() && bs[t] == d[i];
        assert(bs[t][j] < 256);
    }
    assert forall|i: int| 0 <= i < d.len() implies #[trigger] d[i].len() == bl by {
        let t = choose|t: int| 0 <= t < bs.len() && bs[t] == d[i];
    }
    let vals = cell_values(d);
    lemma_sorted_values_stable(d, 65536);
    lemma_sorted_values(d, 256);
    let o = macro_order(d, slots);
    let q = mapped_blocks(d, o, d.len(), vals, true);
    let mw = macro_dim(map_w, r.ox as nat, bw);
    let defs = defs_stream(d, slots, bw, true);
    let map = map_stream(d, slots, mw);
    let b = macro_bytes(cells, map_w, map_h, r);
    let pal = Seq::new(vals.len(), |i: int| vals[i] as u8);
    assert(b == layer_bytes(r, d.len(), vals, defs_bpp(d, true) as u8, defs, min_bpp_spec(d.len()) as u8, map));
    assert(b == seq![0xFFu8, r.bw as u8, r.bh as u8, r.ox as u8, r.oy as u8] + le16(d.len()) + le16(1 + defs.len())
        + (seq![vals.len() as u8] + pal) + (seq![defs_bpp(d, true) as u8] + defs + seq![min_bpp_spec(d.len()) as u8] + map));
    let pb = b.subrange(10, 10 + vals.len() as int);
    assert(pb =~= pal);
    assert forall|k: int, k2: int| 0 <= k < k2 < vals.len() implies #[trigger] pb[k] < #[trigger] pb[k2] by {
        assert(vals[k] < vals[k2] && vals[k2] < 256);
    }
    assert forall|k: int| 0 <= k < vals.len() implies exists|a: int, e: int|
        0 <= a < d.len() && 0 <= e < d[a].len() && #[trigger] d[a][e] as u8 == #[trigger] pb[k] by {
        assert(value_used(d, vals[k]));
        let (a, e) = choose|a: int, e: int| 0 <= a < d.len() && 0 <= e < d[a].len() && #[trigger] d[a][e] == vals[k];
        assert(d[a][e] as u8 == pb[k]);
    }
    assert forall|t: int, e: int| 0 <= t < d.len() && 0 <= e < bl implies #[trigger] q[t * bl + e] < vals.len()
        && pb[q[t * bl + e] as int] == d[o[t] as int][e] as u8 by {
        macro_defs_roundtrip(d, slots, true, bl as nat, t as nat, e as nat);
    }
}

} // verus!
