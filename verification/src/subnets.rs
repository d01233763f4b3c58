//! Splitting of address ranges into subnets.
//!
//! Addresses are plain numbers here, `width` bits wide. A block is a run of `2^h` numbers that
//! starts at a multiple of `2^h`: the addresses of a subnet that leaves `h` bits to its hosts.

use vstd::arithmetic::div_mod::{
    lemma_div_denominator, lemma_div_multiples_vanish, lemma_fundamental_div_mod,
    lemma_fundamental_div_mod_converse, lemma_small_mod,
};
use vstd::arithmetic::power2::{
    lemma_pow2_adds, lemma_pow2_pos, lemma_pow2_strictly_increases, lemma_pow2_unfold, pow2,
};
use vstd::prelude::*;

use crate::ranges::{covered, lemma_covered_push, separated, Span};

verus! {

/// The first number of the block of `2^h` numbers that holds `x`.
pub open spec fn block_start(x: int, h: nat) -> int {
    (x / (pow2(h) as int)) * pow2(h)
}

/// The last number of the block of `2^h` numbers that holds `x`.
pub open spec fn block_end(x: int, h: nat) -> int {
    block_start(x, h) + pow2(h) - 1
}

/// Whether a block of `2^h` numbers starts at `x`.
pub open spec fn aligned(x: int, h: nat) -> bool {
    block_start(x, h) == x
}

/// Whether `set` holds all of the block of `2^h` numbers that holds `x`.
pub open spec fn whole(set: Set<int>, x: int, h: nat) -> bool {
    forall|y: int| block_start(x, h) <= y <= block_end(x, h) ==> #[trigger] set.contains(y)
}

/// The largest block that holds `x` and lies in `set` has `2^h` numbers.
pub open spec fn level_is(width: nat, set: Set<int>, x: int, h: nat) -> bool {
    &&& h <= width
    &&& whole(set, x, h)
    &&& h == width || !whole(set, x, h + 1)
}

/// `x` and `x + 1` are a run of their own that no block of two numbers holds.
pub open spec fn lone_pair(set: Set<int>, x: int) -> bool {
    &&& x % 2 == 1
    &&& set.contains(x)
    &&& set.contains(x + 1)
    &&& !set.contains(x - 1)
    &&& !set.contains(x + 2)
}

/// A part of an address range.
#[derive(Clone, Copy, Debug, PartialEq, Eq, Structural)]
pub enum Piece {
    /// The `2^host_bits` addresses from `base` on. With no host bits, one address.
    Subnet { base: u128, host_bits: u8 },
    /// Two consecutive addresses that do not form a subnet.
    Pair { first: u128 },
}

impl Piece {
    pub open spec fn first(self) -> int {
        match self {
            Piece::Subnet { base, host_bits } => base as int,
            Piece::Pair { first } => first as int,
        }
    }

    pub open spec fn last(self) -> int {
        match self {
            Piece::Subnet { base, host_bits } => base + pow2(host_bits as nat) - 1,
            Piece::Pair { first } => first + 1,
        }
    }

    /// Whether `x` lies in the piece.
    pub open spec fn has(self, x: int) -> bool {
        self.first() <= x <= self.last()
    }

    /// A lone pair of `set`, or a subnet in `set` that no larger subnet in `set` holds. A single
    /// address of a lone pair is no piece.
    pub open spec fn is_piece(self, width: nat, set: Set<int>) -> bool {
        match self {
            Piece::Subnet { base, host_bits } => {
                &&& aligned(base as int, host_bits as nat)
                &&& level_is(width, set, base as int, host_bits as nat)
                &&& host_bits == 0 ==> !lone_pair(set, base as int) && !lone_pair(set, base - 1)
            },
            Piece::Pair { first } => lone_pair(set, first as int),
        }
    }
}

/// The addresses that lie in at least one of the pieces.
pub open spec fn pieces_cover(pieces: Seq<Piece>) -> Set<int> {
    Set::new(|x: int| exists|i: int| 0 <= i < pieces.len() && (#[trigger] pieces[i]).has(x))
}

/// The pieces stand in ascending order and share no address.
pub open spec fn ascending(pieces: Seq<Piece>) -> bool {
    forall|i: int, j: int|
        0 <= i < j < pieces.len() ==> (#[trigger] pieces[i]).last() < (#[trigger] pieces[j]).first()
}

/// The pieces are the largest subnets in `set`, with its lone pairs, in ascending order.
pub open spec fn is_pieces_of(width: nat, pieces: Seq<Piece>, set: Set<int>) -> bool {
    &&& ascending(pieces)
    &&& forall|i: int| 0 <= i < pieces.len() ==> (#[trigger] pieces[i]).is_piece(width, set)
    &&& pieces_cover(pieces) =~= set
}

/// The largest subnets in `set`, with its lone pairs, in ascending order.
pub open spec fn pieces_of(width: nat, set: Set<int>) -> Seq<Piece> {
    choose|pieces: Seq<Piece>| is_pieces_of(width, pieces, set)
}

/// Every member of `set` is an address.
pub open spec fn in_width(width: nat, set: Set<int>) -> bool {
    forall|x: int| #[trigger] set.contains(x) ==> 0 <= x < pow2(width)
}

/// The numbers from `lo` to `hi`.
pub open spec fn interval(lo: int, hi: int) -> Set<int> {
    Set::new(|x: int| lo <= x <= hi)
}

proof fn lemma_block(x: int, h: nat)
    requires
        0 <= x,
    ensures
        0 <= block_start(x, h) <= x <= block_end(x, h),
        pow2(h) > 0,
        aligned(block_start(x, h), h),
{
    lemma_pow2_pos(h);
    let p = pow2(h) as int;
    lemma_fundamental_div_mod(x, p);
    assert(p * (x / p) == (x / p) * p) by (nonlinear_arith);
    assert((x / p) * p >= 0) by (nonlinear_arith)
        requires
            x >= 0,
            p > 0,
    ;
    lemma_div_multiples_vanish(x / p, p);
    assert((p * (x / p)) / p == x / p);
}

/// The numbers of a block share that block.
proof fn lemma_same_block(x: int, y: int, h: nat)
    requires
        0 <= x,
        block_start(x, h) <= y <= block_end(x, h),
    ensures
        block_start(y, h) == block_start(x, h),
{
    lemma_pow2_pos(h);
    let p = pow2(h) as int;
    let q = x / p;
    lemma_fundamental_div_mod_converse(y, p, q, y - q * p);
}

/// A block of `2^h` numbers lies in the block of twice as many that holds any of them.
proof fn lemma_parent_block(x: int, h: nat)
    requires
        0 <= x,
    ensures
        block_start(x, h + 1) <= block_start(x, h),
        block_end(x, h) <= block_end(x, h + 1),
        pow2(h + 1) == 2 * pow2(h),
{
    lemma_pow2_pos(h);
    lemma_pow2_unfold(h + 1);
    let p = pow2(h) as int;
    lemma_div_denominator(x, p, 2);
    assert(x / (p * 2) == (x / p) / 2);
    let q = x / p;
    assert((q / 2) * (2 * p) == (2 * (q / 2)) * p) by (nonlinear_arith);
    assert(2 * (q / 2) <= q <= 2 * (q / 2) + 1);
    assert((2 * (q / 2)) * p <= q * p) by (nonlinear_arith)
        requires
            2 * (q / 2) <= q,
            p > 0,
    ;
    assert(q * p <= (2 * (q / 2) + 1) * p) by (nonlinear_arith)
        requires
            q <= 2 * (q / 2) + 1,
            p > 0,
    ;
    assert((2 * (q / 2) + 1) * p == (2 * (q / 2)) * p + p) by (nonlinear_arith);
}

/// What lies whole in a set with a block lies there with every smaller block inside it.
proof fn lemma_whole_down(set: Set<int>, x: int, h: nat, g: nat)
    requires
        0 <= x,
        g <= h,
        whole(set, x, h),
    ensures
        whole(set, x, g),
    decreases h,
{
    if g < h {
        lemma_parent_block(x, (h - 1) as nat);
        assert(whole(set, x, (h - 1) as nat));
        lemma_whole_down(set, x, (h - 1) as nat, g);
    }
}

/// A multiple of `2^h` is a multiple of every smaller power, and so is the next multiple.
proof fn lemma_aligned_down(x: int, h: nat, g: nat)
    requires
        0 <= x,
        g <= h,
        aligned(x, h),
    ensures
        aligned(x, g),
        aligned(x + pow2(h), g),
{
    lemma_pow2_pos(h);
    lemma_pow2_pos(g);
    lemma_pow2_adds((h - g) as nat, g);
    let p = pow2(h) as int;
    let s = pow2(g) as int;
    let t = pow2((h - g) as nat) as int;
    let k = x / p;
    assert(x == s * (k * t)) by (nonlinear_arith)
        requires
            x == k * p,
            p == t * s,
    ;
    assert(x + p == s * (k * t + t)) by (nonlinear_arith)
        requires
            x == k * p,
            p == t * s,
    ;
    lemma_div_multiples_vanish(k * t, s);
    lemma_div_multiples_vanish(k * t + t, s);
    assert(s * (k * t) == (k * t) * s) by (nonlinear_arith);
    assert(s * (k * t + t) == (k * t + t) * s) by (nonlinear_arith);
}

/// Two pieces of one set that start at the same address are the same piece.
proof fn lemma_piece_at(width: nat, set: Set<int>, p: Piece, q: Piece)
    requires
        p.is_piece(width, set),
        q.is_piece(width, set),
        p.first() == q.first(),
    ensures
        p == q,
{
    match (p, q) {
        (Piece::Subnet { base, host_bits: g }, Piece::Subnet { base: base_q, host_bits: h }) => {
            if g < h {
                lemma_whole_down(set, base as int, h as nat, (g + 1) as nat);
            } else if h < g {
                lemma_whole_down(set, base as int, g as nat, (h + 1) as nat);
            }
        },
        (Piece::Subnet { base, host_bits }, Piece::Pair { first }) => {
            lemma_pair_is_no_subnet(width, set, base as int, host_bits as nat);
        },
        (Piece::Pair { first }, Piece::Subnet { base, host_bits }) => {
            lemma_pair_is_no_subnet(width, set, base as int, host_bits as nat);
        },
        (Piece::Pair { first }, Piece::Pair { first: first_q }) => {},
    }
}

/// No block of two numbers or more in `set` starts at the odd number of a lone pair.
proof fn lemma_pair_is_no_subnet(width: nat, set: Set<int>, x: int, h: nat)
    requires
        0 <= x,
        whole(set, x, h),
        lone_pair(set, x),
    ensures
        h == 0,
{
    if h > 0 {
        lemma_whole_down(set, x, h, 1);
        lemma_block_of_two(x);
        assert(set.contains(x - 1));
    }
}

proof fn lemma_block_of_two(x: int)
    requires
        0 <= x,
    ensures
        pow2(0) == 1,
        pow2(1) == 2,
        block_start(x, 0) == x == block_end(x, 0),
        block_start(x, 1) == x - x % 2,
        block_end(x, 1) == x - x % 2 + 1,
{
    vstd::arithmetic::power2::lemma2_to64();
    lemma_fundamental_div_mod(x, 2);
}

/// Two ordered lists of pieces with the same cover agree, if pieces that start together do.
proof fn lemma_pieces_agree_below(a: Seq<Piece>, b: Seq<Piece>, n: int)
    requires
        ascending(a),
        ascending(b),
        pieces_cover(a) == pieces_cover(b),
        forall|i: int| 0 <= i < a.len() ==> (#[trigger] a[i]).first() <= a[i].last(),
        forall|i: int| 0 <= i < b.len() ==> (#[trigger] b[i]).first() <= b[i].last(),
        forall|i: int, j: int|
            0 <= i < a.len() && 0 <= j < b.len() && (#[trigger] a[i]).first() == (
            #[trigger] b[j]).first() ==> a[i] == b[j],
        0 <= n <= a.len(),
    ensures
        n <= b.len(),
        forall|i: int| 0 <= i < n ==> a[i] == b[i],
    decreases n,
{
    if n > 0 {
        lemma_pieces_agree_below(a, b, n - 1);
        let k = n - 1;
        let x = a[k].first();
        assert(a[k].has(x));
        assert(pieces_cover(a).contains(x));
        let j = choose|j: int| 0 <= j < b.len() && (#[trigger] b[j]).has(x);
        if j < k {
            assert(a[j] == b[j]);
            assert(a[j].last() < a[k].first());
        }
        assert(k <= j);
        let y = b[k].first();
        assert(b[k].has(y));
        assert(pieces_cover(b).contains(y));
        let m = choose|m: int| 0 <= m < a.len() && (#[trigger] a[m]).has(y);
        if m < k {
            assert(a[m] == b[m]);
            assert(b[m].last() < b[k].first());
        }
        assert(k <= m);
        if k < m {
            assert(a[k].last() < a[m].first());
        }
        if k < j {
            assert(b[k].last() < b[j].first());
        }
        assert(a[k].first() == b[k].first());
    }
}

proof fn lemma_piece_nonempty(p: Piece)
    ensures
        p.first() <= p.last(),
{
    match p {
        Piece::Subnet { base, host_bits } => {
            lemma_pow2_pos(host_bits as nat);
        },
        Piece::Pair { first } => {},
    }
}

/// A set has one list of pieces only.
pub proof fn lemma_pieces_unique(width: nat, a: Seq<Piece>, b: Seq<Piece>, set: Set<int>)
    requires
        is_pieces_of(width, a, set),
        is_pieces_of(width, b, set),
    ensures
        a == b,
{
    assert forall|i: int| 0 <= i < a.len() implies (#[trigger] a[i]).first() <= a[i].last() by {
        lemma_piece_nonempty(a[i]);
    }
    assert forall|i: int| 0 <= i < b.len() implies (#[trigger] b[i]).first() <= b[i].last() by {
        lemma_piece_nonempty(b[i]);
    }
    assert forall|i: int, j: int|
        0 <= i < a.len() && 0 <= j < b.len() && (#[trigger] a[i]).first() == (
        #[trigger] b[j]).first() implies a[i] == b[j] by {
        lemma_piece_at(width, set, a[i], b[j]);
    }
    lemma_pieces_agree_below(a, b, a.len() as int);
    lemma_pieces_agree_below(b, a, b.len() as int);
    assert(a =~= b);
}

/// A list of the pieces of a set is the list that `pieces_of` names.
pub proof fn lemma_is_pieces_of(width: nat, pieces: Seq<Piece>, set: Set<int>)
    requires
        is_pieces_of(width, pieces, set),
    ensures
        pieces == pieces_of(width, set),
{
    lemma_pieces_unique(width, pieces, pieces_of(width, set), set);
}

/// Neither a block in `set` nor a lone pair holds both `x - 1` and `x`.
spec fn clean_cut(width: nat, set: Set<int>, x: int) -> bool {
    &&& forall|y: int, h: nat|
        0 <= y && h <= width && #[trigger] whole(set, y, h) ==> !(block_start(y, h) < x
            <= block_end(y, h))
    &&& !lone_pair(set, x - 1)
}

proof fn lemma_level_exists(width: nat, set: Set<int>, x: int, from: nat) -> (h: nat)
    requires
        from <= width,
        whole(set, x, from),
    ensures
        level_is(width, set, x, h),
    decreases width - from,
{
    if from == width || !whole(set, x, from + 1) {
        from
    } else {
        lemma_level_exists(width, set, x, from + 1)
    }
}

/// The end of the largest block in `set` that holds `x` is a clean cut.
proof fn lemma_cut_after_block(width: nat, set: Set<int>, x: int, h: nat)
    requires
        0 <= x,
        level_is(width, set, x, h),
        aligned(x, h),
        h == 0 ==> !lone_pair(set, x),
    ensures
        clean_cut(width, set, block_end(x, h) + 1),
{
    let e = block_end(x, h);
    lemma_block(x, h);
    lemma_same_block(x, e, h);
    assert forall|y: int, g: nat| 0 <= y && g <= width && #[trigger] whole(set, y, g) implies !(
    block_start(y, g) < e + 1 <= block_end(y, g)) by {
        if block_start(y, g) < e + 1 <= block_end(y, g) {
            lemma_same_block(y, e, g);
            if g <= h {
                lemma_nested_block(e, g, h);
            } else {
                assert(whole(set, e, g));
                lemma_whole_down(set, e, g, h + 1);
                lemma_parent_block(x, h);
                lemma_same_block(x, e, h + 1);
                assert(whole(set, x, h + 1));
            }
        }
    }
    if lone_pair(set, e) {
        lemma_block_of_two(x);
        if h > 0 {
            lemma_pow2_strictly_increases(0, h);
            assert(set.contains(e - 1));
        }
    }
}

/// Smaller blocks of a number lie in its larger ones.
proof fn lemma_nested_block(x: int, g: nat, h: nat)
    requires
        0 <= x,
        g <= h,
    ensures
        block_start(x, h) <= block_start(x, g),
        block_end(x, g) <= block_end(x, h),
    decreases h,
{
    if g < h {
        lemma_parent_block(x, (h - 1) as nat);
        lemma_nested_block(x, g, (h - 1) as nat);
    }
}

proof fn lemma_cover_push(pieces: Seq<Piece>, piece: Piece)
    ensures
        pieces_cover(pieces.push(piece)) =~= pieces_cover(pieces).union(
            interval(piece.first(), piece.last()),
        ),
{
    lemma_cover_add(pieces, seq![piece]);
    assert(pieces.push(piece) =~= pieces + seq![piece]);
    let one = seq![piece];
    assert(pieces_cover(one) =~= interval(piece.first(), piece.last())) by {
        assert(one[0] == piece);
    }
}

proof fn lemma_cover_add(a: Seq<Piece>, b: Seq<Piece>)
    ensures
        pieces_cover(a + b) =~= pieces_cover(a).union(pieces_cover(b)),
{
    let all = a + b;
    assert forall|x: int| pieces_cover(a).union(pieces_cover(b)).contains(x) implies pieces_cover(
        all,
    ).contains(x) by {
        if pieces_cover(a).contains(x) {
            let i = choose|i: int| 0 <= i < a.len() && (#[trigger] a[i]).has(x);
            assert(all[i].has(x));
        } else {
            let i = choose|i: int| 0 <= i < b.len() && (#[trigger] b[i]).has(x);
            assert(all[a.len() + i].has(x));
        }
    }
    assert forall|x: int| pieces_cover(all).contains(x) implies pieces_cover(a).union(
        pieces_cover(b),
    ).contains(x) by {
        let i = choose|i: int| 0 <= i < all.len() && (#[trigger] all[i]).has(x);
        if i < a.len() {
            assert(a[i].has(x));
        } else {
            assert(b[i - a.len()].has(x));
        }
    }
}

proof fn lemma_pieces_exist_from(width: nat, set: Set<int>, x: int, done: Seq<Piece>) -> (pieces:
    Seq<Piece>)
    requires
        width <= 128,
        in_width(width, set),
        0 <= x <= pow2(width),
        clean_cut(width, set, x),
        ascending(done),
        forall|i: int| 0 <= i < done.len() ==> (#[trigger] done[i]).is_piece(width, set),
        forall|i: int| 0 <= i < done.len() ==> (#[trigger] done[i]).last() < x,
        pieces_cover(done) =~= set.intersect(interval(0, x - 1)),
    ensures
        is_pieces_of(width, pieces, set),
    decreases pow2(width) - x,
{
    lemma_width_fits(width);
    if x == pow2(width) {
        assert(set.intersect(interval(0, x - 1)) =~= set);
        done
    } else if !set.contains(x) {
        assert forall|y: int, h: nat| 0 <= y && h <= width && #[trigger] whole(
            set,
            y,
            h,
        ) implies !(block_start(y, h) < x + 1 <= block_end(y, h)) by {
            if block_start(y, h) < x + 1 <= block_end(y, h) {
                assert(set.contains(x));
            }
        }
        lemma_pieces_exist_from(width, set, x + 1, done)
    } else if lone_pair(set, x) {
        let piece = Piece::Pair { first: x as u128 };
        lemma_cover_push(done, piece);
        assert forall|y: int, h: nat| 0 <= y && h <= width && #[trigger] whole(
            set,
            y,
            h,
        ) implies !(block_start(y, h) < x + 2 <= block_end(y, h)) by {
            if block_start(y, h) < x + 2 <= block_end(y, h) {
                assert(set.contains(x + 2));
            }
        }
        lemma_pieces_exist_from(width, set, x + 2, done.push(piece))
    } else {
        lemma_block_of_two(x);
        assert(whole(set, x, 0));
        let h = lemma_level_exists(width, set, x, 0);
        lemma_block(x, h);
        assert(aligned(x, h));
        let piece = Piece::Subnet { base: x as u128, host_bits: h as u8 };
        lemma_cover_push(done, piece);
        lemma_cut_after_block(width, set, x, h);
        assert(set.contains(block_end(x, h)));
        lemma_pieces_exist_from(width, set, block_end(x, h) + 1, done.push(piece))
    }
}

/// The addresses of a width of at most 128 bits fit in a `u128`.
pub(crate) proof fn lemma_width_fits(width: nat)
    requires
        width <= 128,
    ensures
        0 < pow2(width) <= u128::MAX + 1,
{
    lemma_pow2_pos(width);
    vstd::arithmetic::power2::lemma2_to64();
    lemma_pow2_adds(64, 64);
    if width < 128 {
        lemma_pow2_strictly_increases(width, 128);
    }
}

/// Every set of addresses has pieces, and `pieces_of` names them.
pub proof fn lemma_pieces_of(width: nat, set: Set<int>)
    requires
        width <= 128,
        in_width(width, set),
    ensures
        is_pieces_of(width, pieces_of(width, set), set),
{
    lemma_width_fits(width);
    assert forall|y: int, h: nat| 0 <= y && h <= width && #[trigger] whole(set, y, h) implies !(
    block_start(y, h) < 0 <= block_end(y, h)) by {
        lemma_block(y, h);
    }
    let none = Seq::<Piece>::empty();
    let pieces = lemma_pieces_exist_from(width, set, 0, none);
}

/// Splitting what a split returned changes nothing.
pub proof fn lemma_split_idempotent(width: nat, set: Set<int>)
    requires
        width <= 128,
        in_width(width, set),
    ensures
        pieces_of(width, pieces_cover(pieces_of(width, set))) == pieces_of(width, set),
{
    lemma_pieces_of(width, set);
}

/// Whether a block of `2^h` numbers starts at `x` and lies between `lo` and `hi`.
pub open spec fn fits(x: int, h: nat, lo: int, hi: int) -> bool {
    &&& aligned(x, h)
    &&& lo <= x
    &&& x + pow2(h) - 1 <= hi
}

/// The largest number of `h` bits.
pub(crate) fn low_mask(h: u8) -> (mask: u128)
    requires
        h <= 128,
    ensures
        mask == pow2(h as nat) - 1,
{
    let mut mask: u128 = 0;
    let mut i: u8 = 0;
    proof {
        lemma_block_of_two(0);
    }
    while i < h
        invariant
            i <= h <= 128,
            mask == pow2(i as nat) - 1,
        decreases h - i,
    {
        proof {
            lemma_pow2_unfold((i + 1) as nat);
            lemma_width_fits((i + 1) as nat);
        }
        mask = 2 * mask + 1;
        i = i + 1;
    }
    mask
}

/// `low + gap` is the first multiple of `2^h` at or above `lo`.
proof fn lemma_first_multiple(lo: int, h: nat, gap: int)
    requires
        0 <= lo,
        gap == if lo % (pow2(h) as int) == 0 {
            0int
        } else {
            pow2(h) - lo % (pow2(h) as int)
        },
    ensures
        aligned(lo + gap, h),
        forall|x: int, hi: int| #[trigger] fits(x, h, lo, hi) ==> lo + gap <= x,
{
    lemma_pow2_pos(h);
    let p = pow2(h) as int;
    let q = lo / p;
    lemma_fundamental_div_mod(lo, p);
    let k = if lo % p == 0 {
        q
    } else {
        q + 1
    };
    assert(lo + gap == k * p) by (nonlinear_arith)
        requires
            lo == p * q + lo % p,
            lo % p == 0 ==> gap == 0 && k == q,
            lo % p != 0 ==> gap == p - lo % p && k == q + 1,
    ;
    lemma_div_multiples_vanish(k, p);
    assert(p * k == k * p) by (nonlinear_arith);
    assert forall|x: int, hi: int| #[trigger] fits(x, h, lo, hi) implies lo + gap <= x by {
        let m = x / p;
        assert(m * p >= k * p) by (nonlinear_arith)
            requires
                m * p >= lo,
                p > 0,
                lo == p * q + lo % p,
                0 <= lo % p,
                lo % p == 0 ==> k == q,
                lo % p != 0 ==> k == q + 1,
        ;
    }
}

/// The largest block of two numbers or more between `lo` and `hi`, and of the largest ones the
/// first, as its start and its number of host bits.
pub fn largest_subnet(width: u8, lo: u128, hi: u128) -> (subnet: Option<(u128, u8)>)
    requires
        1 <= width <= 128,
        lo <= hi < pow2(width as nat),
    ensures
        match subnet {
            Some((base, h)) => {
                &&& 1 <= h <= width
                &&& fits(base as int, h as nat, lo as int, hi as int)
                &&& forall|x: int| #[trigger]
                    fits(x, h as nat, lo as int, hi as int) ==> base <= x
                &&& forall|x: int, g: nat|
                    h < g <= width ==> !#[trigger] fits(x, g, lo as int, hi as int)
            },
            None => forall|x: int, g: nat|
                1 <= g <= width ==> !#[trigger] fits(x, g, lo as int, hi as int),
        },
{
    let mut h: u8 = width;
    let mut mask: u128 = low_mask(width);
    while h > 0
        invariant
            h <= width <= 128,
            lo <= hi < pow2(width as nat),
            mask == pow2(h as nat) - 1,
            forall|x: int, g: nat|
                h < g <= width ==> !#[trigger] fits(x, g, lo as int, hi as int),
        decreases h,
    {
        proof {
            lemma_width_fits(h as nat);
            if mask == u128::MAX {
                lemma_small_mod(lo as nat, pow2(h as nat));
            }
        }
        let over: u128 = if mask == u128::MAX {
            lo
        } else {
            lo % (mask + 1)
        };
        assert(over == lo as int % (pow2(h as nat) as int));
        assert(over <= mask) by {
            vstd::arithmetic::div_mod::lemma_mod_bound(lo as int, pow2(h as nat) as int);
        }
        let gap: u128 = if over == 0 {
            0
        } else {
            mask - over + 1
        };
        proof {
            lemma_first_multiple(lo as int, h as nat, gap as int);
        }
        if gap <= hi - lo {
            let base: u128 = lo + gap;
            if mask <= hi - base {
                return Some((base, h));
            }
        }
        proof {
            lemma_pow2_unfold(h as nat);
        }
        mask = mask / 2;
        h = h - 1;
    }
    None
}

/// Pieces up to `cut` and pieces above it, one list after the other.
proof fn lemma_ascending_add(a: Seq<Piece>, b: Seq<Piece>, cut: int)
    requires
        ascending(a),
        ascending(b),
        forall|x: int| #[trigger] pieces_cover(a).contains(x) ==> x <= cut,
        forall|x: int| #[trigger] pieces_cover(b).contains(x) ==> cut < x,
    ensures
        ascending(a + b),
{
    let all = a + b;
    assert forall|i: int, j: int| 0 <= i < j < all.len() implies (#[trigger] all[i]).last() < (
    #[trigger] all[j]).first() by {
        if i < a.len() && a.len() <= j {
            let p = a[i];
            let q = b[j - a.len()];
            lemma_piece_nonempty(p);
            lemma_piece_nonempty(q);
            assert(a[i].has(p.last()));
            assert(b[j - a.len()].has(q.first()));
            assert(pieces_cover(a).contains(p.last()));
            assert(pieces_cover(b).contains(q.first()));
        } else if i < a.len() {
            assert(a[i].last() < a[j].first());
        } else {
            assert(b[i - a.len()].last() < b[j - a.len()].first());
        }
    }
}

/// The pieces are the largest subnets between `lo` and `hi`, single addresses included.
spec fn is_split(width: nat, pieces: Seq<Piece>, lo: int, hi: int) -> bool {
    &&& ascending(pieces)
    &&& forall|i: int|
        0 <= i < pieces.len() ==> {
            &&& #[trigger] pieces[i] matches Piece::Subnet { base, host_bits }
            &&& aligned(base as int, host_bits as nat)
            &&& level_is(width, interval(lo, hi), base as int, host_bits as nat)
        }
    &&& pieces_cover(pieces) =~= interval(lo, hi)
}

/// The block of an address holds addresses only. A block of all addresses starts at zero.
pub(crate) proof fn lemma_block_in_width(width: nat, x: int, h: nat)
    requires
        0 <= x < pow2(width),
        h <= width,
    ensures
        0 <= block_start(x, h) <= block_end(x, h) < pow2(width),
        h == width ==> block_start(x, h) == 0,
        block_start(x, h) == x - x % (pow2(h) as int),
{
    lemma_block(x, h);
    lemma_nested_block(x, h, width);
    lemma_fundamental_div_mod_converse(x, pow2(width) as int, 0, x);
    assert(block_start(x, width) == 0);
    lemma_fundamental_div_mod(x, pow2(h) as int);
    assert(pow2(h) * (x / (pow2(h) as int)) == (x / (pow2(h) as int)) * pow2(h))
        by (nonlinear_arith);
}

/// A block that lies whole in an interval fits in it.
proof fn lemma_whole_fits(lo: int, hi: int, x: int, h: nat)
    requires
        0 <= x,
        whole(interval(lo, hi), x, h),
    ensures
        fits(block_start(x, h), h, lo, hi),
{
    lemma_block(x, h);
    assert(interval(lo, hi).contains(block_start(x, h)));
    assert(interval(lo, hi).contains(block_end(x, h)));
}

/// Cutting the largest block out of an interval leaves the largest subnets of the rest as they
/// are.
proof fn lemma_level_beside(
    width: nat,
    lo: int,
    hi: int,
    b: int,
    k: nat,
    part_lo: int,
    part_hi: int,
    x: int,
    h: nat,
)
    requires
        0 <= lo,
        fits(b, k, lo, hi),
        forall|y: int, g: nat| k < g <= width ==> !#[trigger] fits(y, g, lo, hi),
        ({
            ||| part_lo == lo && part_hi == b - 1
            ||| part_lo == b + pow2(k) && part_hi == hi
        }),
        part_lo <= x <= part_hi,
        level_is(width, interval(part_lo, part_hi), x, h),
    ensures
        level_is(width, interval(lo, hi), x, h),
{
    lemma_pow2_pos(k);
    let all = interval(lo, hi);
    let part = interval(part_lo, part_hi);
    assert(whole(all, x, h)) by {
        assert forall|y: int| block_start(x, h) <= y <= block_end(x, h) implies #[trigger]
            all.contains(y) by {
            assert(part.contains(y));
        }
    }
    if h < width && whole(all, x, h + 1) {
        let g = h + 1;
        lemma_whole_fits(lo, hi, x, g);
        assert(g <= k);
        lemma_block(x, g);
        lemma_aligned_down(b, k, g);
        if part_hi == b - 1 && part_lo == lo {
            if block_end(x, g) >= b {
                lemma_same_block(x, b, g);
                assert(false);
            }
        } else {
            let c = b + pow2(k);
            if block_start(x, g) < c {
                lemma_same_block(x, c, g);
                assert(false);
            }
        }
        assert(whole(part, x, g));
    }
}

/// The largest subnets between `lo` and `hi`, found by cutting out the largest one first.
fn split_range(width: u8, lo: u128, hi: u128) -> (pieces: Vec<Piece>)
    requires
        1 <= width <= 128,
        lo <= hi < pow2(width as nat),
    ensures
        is_split(width as nat, pieces@, lo as int, hi as int),
    decreases hi - lo,
{
    let ghost w = width as nat;
    let ghost all = interval(lo as int, hi as int);
    let mut pieces: Vec<Piece> = Vec::new();
    match largest_subnet(width, lo, hi) {
        Some((base, h)) => {
            let last: u128 = base + low_mask(h);
            let ghost k = h as nat;
            let ghost mut left = Seq::<Piece>::empty();
            assert(pieces_cover(pieces@) =~= Set::<int>::empty());
            if lo < base {
                pieces = split_range(width, lo, base - 1);
                proof {
                    left = pieces@;
                    assert forall|i: int| 0 <= i < left.len() implies {
                        &&& #[trigger] left[i] matches Piece::Subnet { base, host_bits }
                        &&& aligned(base as int, host_bits as nat)
                        &&& level_is(w, all, base as int, host_bits as nat)
                    } by {
                        let x = left[i]->base as int;
                        lemma_pow2_pos(left[i]->host_bits as nat);
                        assert(left[i].has(x));
                        assert(pieces_cover(left).contains(x));
                        lemma_level_beside(
                            w,
                            lo as int,
                            hi as int,
                            base as int,
                            k,
                            lo as int,
                            base - 1,
                            x,
                            left[i]->host_bits as nat,
                        );
                    }
                }
            }
            let piece: Piece = Piece::Subnet { base, host_bits: h };
            assert(level_is(w, all, base as int, k)) by {
                lemma_pow2_pos(k);
                assert(whole(all, base as int, k));
                if k < w && whole(all, base as int, k + 1) {
                    lemma_whole_fits(lo as int, hi as int, base as int, k + 1);
                }
            }
            proof {
                lemma_cover_push(left, piece);
                let one = seq![piece];
                assert(pieces_cover(one) =~= interval(base as int, last as int)) by {
                    assert(one[0] == piece);
                }
                lemma_ascending_add(left, one, base - 1);
                assert(left.push(piece) =~= left + one);
            }
            pieces.push(piece);
            if last < hi {
                let mut rest: Vec<Piece> = split_range(width, last + 1, hi);
                proof {
                    let right = rest@;
                    assert forall|i: int| 0 <= i < right.len() implies {
                        &&& #[trigger] right[i] matches Piece::Subnet { base, host_bits }
                        &&& aligned(base as int, host_bits as nat)
                        &&& level_is(w, all, base as int, host_bits as nat)
                    } by {
                        let x = right[i]->base as int;
                        lemma_pow2_pos(right[i]->host_bits as nat);
                        assert(right[i].has(x));
                        assert(pieces_cover(right).contains(x));
                        lemma_level_beside(
                            w,
                            lo as int,
                            hi as int,
                            base as int,
                            k,
                            last + 1,
                            hi as int,
                            x,
                            right[i]->host_bits as nat,
                        );
                    }
                    lemma_cover_add(pieces@, right);
                    lemma_ascending_add(pieces@, right, last as int);
                }
                pieces.append(&mut rest);
            }
        },
        None => {
            proof {
                lemma_block_of_two(lo as int);
                lemma_block_of_two(hi as int);
                if hi - lo >= 2 {
                    let x = lo + lo % 2;
                    lemma_block_of_two(x as int);
                    assert(fits(x as int, 1, lo as int, hi as int));
                }
                if whole(all, lo as int, 1) {
                    lemma_whole_fits(lo as int, hi as int, lo as int, 1);
                }
                if whole(all, hi as int, 1) {
                    lemma_whole_fits(lo as int, hi as int, hi as int, 1);
                }
            }
            let first: Piece = Piece::Subnet { base: lo, host_bits: 0 };
            proof {
                lemma_cover_push(pieces@, first);
            }
            pieces.push(first);
            if lo < hi {
                let second: Piece = Piece::Subnet { base: hi, host_bits: 0 };
                proof {
                    lemma_cover_push(pieces@, second);
                }
                pieces.push(second);
            }
        },
    }
    pieces
}

/// The pieces of the addresses from `lo` to `hi`.
fn split_run(width: u8, lo: u128, hi: u128) -> (pieces: Vec<Piece>)
    requires
        1 <= width <= 128,
        lo <= hi < pow2(width as nat),
    ensures
        is_pieces_of(width as nat, pieces@, interval(lo as int, hi as int)),
{
    let ghost all = interval(lo as int, hi as int);
    if hi - lo == 1 && lo % 2 == 1 {
        let mut pieces: Vec<Piece> = Vec::new();
        let pair: Piece = Piece::Pair { first: lo };
        proof {
            assert(pieces_cover(pieces@) =~= Set::<int>::empty());
            lemma_cover_push(pieces@, pair);
        }
        pieces.push(pair);
        pieces
    } else {
        let pieces: Vec<Piece> = split_range(width, lo, hi);
        assert forall|i: int| 0 <= i < pieces@.len() implies (#[trigger] pieces@[i]).is_piece(
            width as nat,
            all,
        ) by {
            let base = pieces@[i]->base as int;
            assert(!lone_pair(all, base));
            assert(!lone_pair(all, base - 1));
        }
        pieces
    }
}

/// A piece of a maximal run of a set is a piece of the set.
proof fn lemma_piece_of_run(width: nat, set: Set<int>, lo: int, hi: int, p: Piece)
    requires
        forall|x: int| lo <= x <= hi ==> #[trigger] set.contains(x),
        !set.contains(lo - 1),
        !set.contains(hi + 1),
        lo <= p.first() <= hi,
        p.is_piece(width, interval(lo, hi)),
    ensures
        p.is_piece(width, set),
{
    let run = interval(lo, hi);
    match p {
        Piece::Subnet { base, host_bits } => {
            let x = base as int;
            let h = host_bits as nat;
            assert(whole(set, x, h)) by {
                assert forall|y: int| block_start(x, h) <= y <= block_end(x, h) implies #[trigger]
                    set.contains(y) by {
                    assert(run.contains(y));
                }
            }
            if h < width && whole(set, x, h + 1) {
                lemma_block(x, h + 1);
                assert(lo <= block_start(x, h + 1));
                assert(block_end(x, h + 1) <= hi);
                assert(whole(run, x, h + 1));
            }
            if host_bits == 0 {
                lemma_lone_pair_in_run(set, lo, hi, x);
                lemma_lone_pair_in_run(set, lo, hi, x - 1);
            }
        },
        Piece::Pair { first } => {
            lemma_lone_pair_in_run(set, lo, hi, first as int);
        },
    }
}

proof fn lemma_lone_pair_in_run(set: Set<int>, lo: int, hi: int, x: int)
    requires
        forall|y: int| lo <= y <= hi ==> #[trigger] set.contains(y),
        !set.contains(lo - 1),
        !set.contains(hi + 1),
        lo <= hi,
        lo - 1 <= x <= hi,
    ensures
        lone_pair(set, x) == lone_pair(interval(lo, hi), x),
{
    assert(set.contains(lo));
    assert(set.contains(hi));
    if x - 1 >= lo {
        assert(set.contains(x - 1));
    }
    if x + 2 <= hi {
        assert(set.contains(x + 2));
    }
    if lo <= x {
        assert(set.contains(x));
    }
    if x + 1 <= hi {
        assert(set.contains(x + 1));
    }
}

/// The pieces of the addresses that separated runs cover.
pub fn split_runs(width: u8, runs: &Vec<Span>) -> (pieces: Vec<Piece>)
    requires
        1 <= width <= 128,
        separated(runs@),
        forall|i: int| 0 <= i < runs@.len() ==> (#[trigger] runs@[i]).end < pow2(width as nat),
    ensures
        is_pieces_of(width as nat, pieces@, covered(runs@)),
        pieces@ == pieces_of(width as nat, covered(runs@)),
{
    let ghost w = width as nat;
    let ghost set = covered(runs@);
    let mut pieces: Vec<Piece> = Vec::new();
    let mut i: usize = 0;
    assert(pieces_cover(pieces@) =~= Set::<int>::empty());
    assert(covered(runs@.take(0)) =~= Set::<int>::empty());
    while i < runs.len()
        invariant
            1 <= width <= 128,
            w == width,
            set == covered(runs@),
            i <= runs.len(),
            separated(runs@),
            forall|k: int| 0 <= k < runs@.len() ==> (#[trigger] runs@[k]).end < pow2(w),
            ascending(pieces@),
            forall|k: int| 0 <= k < pieces@.len() ==> (#[trigger] pieces@[k]).is_piece(w, set),
            pieces_cover(pieces@) =~= covered(runs@.take(i as int)),
        decreases runs.len() - i,
    {
        let run: Span = runs[i];
        let ghost lo = run.start as int;
        let ghost hi = run.end as int;
        let mut part: Vec<Piece> = split_run(width, run.start, run.end);
        proof {
            assert forall|x: int| lo <= x <= hi implies #[trigger] set.contains(x) by {
                assert(runs@[i as int].has(x));
            }
            assert(!set.contains(lo - 1) && !set.contains(hi + 1)) by {
                if set.contains(lo - 1) {
                    let k = choose|k: int|
                        0 <= k < runs@.len() && (#[trigger] runs@[k]).has(lo - 1);
                    assert(k < i ==> runs@[k].end + 1 < runs@[i as int].start);
                    assert(i < k ==> runs@[i as int].end + 1 < runs@[k].start);
                }
                if set.contains(hi + 1) {
                    let k = choose|k: int|
                        0 <= k < runs@.len() && (#[trigger] runs@[k]).has(hi + 1);
                    assert(k < i ==> runs@[k].end + 1 < runs@[i as int].start);
                    assert(i < k ==> runs@[i as int].end + 1 < runs@[k].start);
                }
            }
            assert forall|k: int| 0 <= k < part@.len() implies (#[trigger] part@[k]).is_piece(
                w,
                set,
            ) by {
                lemma_piece_nonempty(part@[k]);
                assert(part@[k].has(part@[k].first()));
                assert(pieces_cover(part@).contains(part@[k].first()));
                lemma_piece_of_run(w, set, lo, hi, part@[k]);
            }
            assert forall|x: int| #[trigger] pieces_cover(pieces@).contains(x) implies x <= lo
                - 1 by {
                let before = runs@.take(i as int);
                assert(covered(before).contains(x));
                let k = choose|k: int| 0 <= k < before.len() && (#[trigger] before[k]).has(x);
                assert(before[k] == runs@[k]);
                assert(runs@[k].end + 1 < runs@[i as int].start);
            }
            lemma_ascending_add(pieces@, part@, lo - 1);
            lemma_cover_add(pieces@, part@);
            lemma_covered_push(runs@.take(i as int), run);
            assert(runs@.take(i as int).push(run) =~= runs@.take(i + 1));
            let one = seq![run];
            assert(covered(one) =~= interval(lo, hi)) by {
                assert(one[0] == run);
            }
        }
        pieces.append(&mut part);
        i = i + 1;
    }
    assert(runs@.take(i as int) =~= runs@);
    proof {
        lemma_is_pieces_of(w, pieces@, set);
    }
    pieces
}

/// The block of `2^h` numbers that holds `x` consists of the numbers that agree with `x` in all but
/// the last `h` bits.
pub proof fn lemma_block_is_a_quotient(x: int, h: nat, y: int)
    ensures
        block_start(x, h) <= y <= block_end(x, h) <==> y / (pow2(h) as int) == x / (pow2(h) as int),
{
    lemma_pow2_pos(h);
    let p = pow2(h) as int;
    let q = x / p;
    if block_start(x, h) <= y <= block_end(x, h) {
        lemma_fundamental_div_mod_converse(y, p, q, y - q * p);
    }
    if y / p == q {
        lemma_fundamental_div_mod(y, p);
        assert(p * q == q * p) by (nonlinear_arith);
    }
}

/// A subnet of `2^h` addresses fits between two addresses just where it starts at a multiple of its
/// size, not below the lower one, and ends not above the upper one.
pub proof fn lemma_fits_is_multiple_between(x: int, h: nat, lo: int, hi: int)
    ensures
        fits(x, h, lo, hi) <==> (exists|k: int| x == #[trigger] (k * (pow2(h) as int))) && lo <= x
            && x + pow2(h) - 1 <= hi,
{
    lemma_pow2_pos(h);
    let p = pow2(h) as int;
    if fits(x, h, lo, hi) {
        assert(x == (x / p) * p);
    }
    if exists|k: int| x == #[trigger] (k * p) {
        let k = choose|k: int| x == #[trigger] (k * p);
        lemma_div_multiples_vanish(k, p);
        assert(p * k == k * p) by (nonlinear_arith);
    }
}

/// What the pieces of a set of addresses are. They hold the addresses of the set and no others, in
/// ascending order, each address once. A subnet starts at a multiple of its size, and the subnet of
/// twice its size around it is not wholly in the set. A pair starts at an odd address, has no
/// neighbour in the set, and takes the place of its two addresses.
pub proof fn lemma_pieces_are_the_largest(width: nat, set: Set<int>)
    requires
        width <= 128,
        forall|x: int| #[trigger] set.contains(x) ==> 0 <= x < pow2(width),
    ensures
        ({
            let pieces = pieces_of(width, set);
            &&& forall|x: int| #[trigger]
                set.contains(x) <==> exists|i: int|
                    0 <= i < pieces.len() && match #[trigger] pieces[i] {
                        Piece::Subnet { base, host_bits } => base <= x < base + pow2(
                            host_bits as nat,
                        ),
                        Piece::Pair { first } => first <= x <= first + 1,
                    }
            &&& forall|i: int, j: int|
                0 <= i < j < pieces.len() ==> match (#[trigger] pieces[i]) {
                    Piece::Subnet { base, host_bits } => base + pow2(host_bits as nat),
                    Piece::Pair { first } => first + 2,
                } <= match (#[trigger] pieces[j]) {
                    Piece::Subnet { base, .. } => base as int,
                    Piece::Pair { first } => first as int,
                }
            &&& forall|i: int|
                0 <= i < pieces.len() ==> match #[trigger] pieces[i] {
                    Piece::Subnet { base, host_bits } => {
                        let size = pow2(host_bits as nat) as int;
                        &&& host_bits <= width
                        &&& base as int == (base as int / size) * size
                        &&& host_bits < width ==> exists|x: int|
                            x / (pow2(host_bits as nat + 1) as int) == base as int / (pow2(
                                host_bits as nat + 1,
                            ) as int) && !#[trigger] set.contains(x)
                        &&& host_bits == 0 && base % 2 == 1 && set.contains(base + 1)
                            ==> set.contains(base - 1) || set.contains(base + 2)
                        &&& host_bits == 0 && base % 2 == 0 && set.contains(base - 1)
                            ==> set.contains(base - 2) || set.contains(base + 1)
                    },
                    Piece::Pair { first } => {
                        &&& first % 2 == 1
                        &&& !set.contains(first - 1)
                        &&& !set.contains(first + 2)
                    },
                }
        }),
{
    let pieces = pieces_of(width, set);
    lemma_pieces_of(width, set);
    assert forall|x: int| #[trigger] set.contains(x) <==> exists|i: int|
        0 <= i < pieces.len() && match #[trigger] pieces[i] {
            Piece::Subnet { base, host_bits } => base <= x < base + pow2(host_bits as nat),
            Piece::Pair { first } => first <= x <= first + 1,
        } by {
        assert(set.contains(x) <==> pieces_cover(pieces).contains(x));
        if pieces_cover(pieces).contains(x) {
            let i = choose|i: int| 0 <= i < pieces.len() && (#[trigger] pieces[i]).has(x);
            assert(pieces[i].has(x));
        }
        if exists|i: int|
            0 <= i < pieces.len() && match #[trigger] pieces[i] {
                Piece::Subnet { base, host_bits } => base <= x < base + pow2(host_bits as nat),
                Piece::Pair { first } => first <= x <= first + 1,
            } {
            let i = choose|i: int|
                0 <= i < pieces.len() && match #[trigger] pieces[i] {
                    Piece::Subnet { base, host_bits } => base <= x < base + pow2(host_bits as nat),
                    Piece::Pair { first } => first <= x <= first + 1,
                };
            assert(pieces[i].has(x));
        }
    }
    assert forall|i: int, j: int| 0 <= i < j < pieces.len() implies match (#[trigger] pieces[i]) {
        Piece::Subnet { base, host_bits } => base + pow2(host_bits as nat),
        Piece::Pair { first } => first + 2,
    } <= match (#[trigger] pieces[j]) {
        Piece::Subnet { base, .. } => base as int,
        Piece::Pair { first } => first as int,
    } by {
        assert(pieces[i].last() < pieces[j].first());
    }
    assert forall|i: int| 0 <= i < pieces.len() implies match #[trigger] pieces[i] {
        Piece::Subnet { base, host_bits } => {
            let size = pow2(host_bits as nat) as int;
            &&& host_bits <= width
            &&& base as int == (base as int / size) * size
            &&& host_bits < width ==> exists|x: int|
                x / (pow2(host_bits as nat + 1) as int) == base as int / (pow2(
                    host_bits as nat + 1,
                ) as int) && !#[trigger] set.contains(x)
            &&& host_bits == 0 && base % 2 == 1 && set.contains(base + 1) ==> set.contains(base - 1)
                || set.contains(base + 2)
            &&& host_bits == 0 && base % 2 == 0 && set.contains(base - 1) ==> set.contains(base - 2)
                || set.contains(base + 1)
        },
        Piece::Pair { first } => {
            &&& first % 2 == 1
            &&& !set.contains(first - 1)
            &&& !set.contains(first + 2)
        },
    } by {
        assert(pieces[i].is_piece(width, set));
        match pieces[i] {
            Piece::Subnet { base, host_bits } => {
                let x = base as int;
                let h = host_bits as nat;
                lemma_pow2_pos(h);
                assert(pieces[i].has(x));
                assert(pieces_cover(pieces).contains(x));
                assert(set.contains(x));
                if h < width {
                    assert(!whole(set, x, h + 1));
                    let y = choose|y: int|
                        block_start(x, h + 1) <= y <= block_end(x, h + 1) && !#[trigger] set.contains(
                            y,
                        );
                    lemma_block_is_a_quotient(x, h + 1, y);
                }
                if h == 0 {
                    assert(!lone_pair(set, x));
                    assert(!lone_pair(set, x - 1));
                }
            },
            Piece::Pair { first } => {},
        }
    }
}

/// A block starts at a multiple of its size.
pub(crate) proof fn lemma_aligned_is_multiple(x: int, h: nat)
    requires
        aligned(x, h),
    ensures
        x % (pow2(h) as int) == 0,
{
    lemma_pow2_pos(h);
    let p = pow2(h) as int;
    lemma_fundamental_div_mod(x, p);
    assert(p * (x / p) == (x / p) * p) by (nonlinear_arith);
}

} // verus!
