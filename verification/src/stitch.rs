//! Chaining surviving pieces into loops.
//!
//! After a family of curves has been cut at its intersections and the
//! pieces that do not belong to the boundary have been dropped, the
//! survivors are walked back into loops. The geometry decides two things,
//! handed in as plain values: which pieces start where another one ends
//! (`near`), and how far apart two given pieces are (`gap`). The walk
//! itself is decided here:
//!
//! - a loop starts at the lowest-indexed survivor not walked yet;
//! - it ends once the current piece ends where the loop started;
//! - otherwise it continues with the lowest-indexed unwalked survivor that
//!   starts where the current piece ends, on any contour;
//! - failing that, with the next unwalked survivor of the same contour,
//!   in index order and wrapping around, joined by a bridge;
//! - it ends early when there is no such piece or it is too far away.
use vstd::prelude::*;

verus! {

/// Where a candidate piece starts, relative to the end of the piece before
/// it.
#[derive(Clone, Copy, Debug, PartialEq, Eq, Structural)]
pub enum Reach {
    /// Within the matching tolerance: no gap to close.
    Touching,
    /// Apart, but close enough to close with a straight bridge.
    Bridge,
    /// Too far apart: a bridge would draw geometry that never existed.
    TooFar,
}

/// One loop of the walk.
pub struct Chain {
    /// Piece indices, in walking order.
    pub pieces: Vec<usize>,
    /// `bridged[j]`: a straight bridge leads into `pieces[j]`. Never set
    /// for the first piece.
    pub bridged: Vec<bool>,
}

/// Piece `k` exists and survived (belongs to some contour).
pub open spec fn survives(owner: Seq<Option<usize>>, k: usize) -> bool {
    k < owner.len() && owner[k as int] is Some
}

/// Piece `k` belongs to one of the loops already finished.
pub open spec fn in_earlier(before: Seq<Seq<usize>>, k: usize) -> bool {
    exists|a: int| 0 <= a < before.len() && #[trigger] before[a].contains(k)
}

/// Piece `k` has been walked by the time the current loop has walked
/// `prefix`.
pub open spec fn walked(before: Seq<Seq<usize>>, prefix: Seq<usize>, k: usize) -> bool {
    in_earlier(before, k) || prefix.contains(k)
}

/// Piece `k` is an unwalked survivor starting where the last piece of
/// `prefix` ends.
pub open spec fn continues(
    owner: Seq<Option<usize>>,
    near: Seq<Seq<usize>>,
    before: Seq<Seq<usize>>,
    prefix: Seq<usize>,
    k: usize,
) -> bool {
    survives(owner, k) && near[prefix.last() as int].contains(k) && !walked(before, prefix, k)
}

/// Piece `k` is an unwalked survivor of the same contour as the last piece
/// of `prefix`.
pub open spec fn falls_back(
    owner: Seq<Option<usize>>,
    before: Seq<Seq<usize>>,
    prefix: Seq<usize>,
    k: usize,
) -> bool {
    survives(owner, k) && owner[k as int] == owner[prefix.last() as int] && !walked(
        before,
        prefix,
        k,
    )
}

/// Some piece could follow the last piece of `prefix`.
pub open spec fn has_next(
    owner: Seq<Option<usize>>,
    near: Seq<Seq<usize>>,
    before: Seq<Seq<usize>>,
    prefix: Seq<usize>,
) -> bool {
    (exists|c: usize| continues(owner, near, before, prefix, c)) || (exists|c: usize|
        falls_back(owner, before, prefix, c))
}

/// Piece `k` is the one the walk picks after the last piece of `prefix`:
/// the lowest continuation; else the next piece of the same contour after
/// the current one; else the lowest piece of that contour.
pub open spec fn is_next(
    owner: Seq<Option<usize>>,
    near: Seq<Seq<usize>>,
    before: Seq<Seq<usize>>,
    prefix: Seq<usize>,
    k: usize,
) -> bool {
    let cur = prefix.last();
    if exists|c: usize| continues(owner, near, before, prefix, c) {
        continues(owner, near, before, prefix, k) && forall|c: usize|
            c < k ==> !continues(owner, near, before, prefix, c)
    } else if exists|c: usize| cur < c && falls_back(owner, before, prefix, c) {
        cur < k && falls_back(owner, before, prefix, k) && forall|c: usize|
            cur < c < k ==> !falls_back(owner, before, prefix, c)
    } else {
        falls_back(owner, before, prefix, k) && forall|c: usize|
            c < k ==> !falls_back(owner, before, prefix, c)
    }
}

/// The last piece of `prefix` ends where the loop started.
pub open spec fn closes(near: Seq<Seq<usize>>, prefix: Seq<usize>) -> bool {
    near[prefix.last() as int].contains(prefix[0])
}

/// A loop starts at the lowest survivor that no earlier loop walked.
pub open spec fn starts_ok(owner: Seq<Option<usize>>, before: Seq<Seq<usize>>, k: usize) -> bool {
    &&& survives(owner, k)
    &&& !in_earlier(before, k)
    &&& forall|c: usize| c < k && survives(owner, c) ==> in_earlier(before, c)
}

/// After walking `prefix`, the loop goes on to piece `k`, with a bridge
/// into it exactly when `gap` put it apart from the current piece.
pub open spec fn step_ok<F: Fn(usize, usize) -> Reach>(
    owner: Seq<Option<usize>>,
    near: Seq<Seq<usize>>,
    gap: F,
    before: Seq<Seq<usize>>,
    prefix: Seq<usize>,
    k: usize,
    bridge: bool,
) -> bool {
    &&& !closes(near, prefix)
    &&& is_next(owner, near, before, prefix, k)
    &&& exists|r: Reach|
        call_ensures(gap, (prefix.last(), k), r) && r != Reach::TooFar && bridge == (r
            == Reach::Bridge)
}

/// The loop `chain` ends where it must: it closed, nothing could follow,
/// or what would follow is too far away.
pub open spec fn ends_ok<F: Fn(usize, usize) -> Reach>(
    owner: Seq<Option<usize>>,
    near: Seq<Seq<usize>>,
    gap: F,
    before: Seq<Seq<usize>>,
    chain: Seq<usize>,
) -> bool {
    ||| closes(near, chain)
    ||| !has_next(owner, near, before, chain)
    ||| exists|k: usize, r: Reach|
        is_next(owner, near, before, chain, k) && call_ensures(gap, (chain.last(), k), r) && r
            == Reach::TooFar
}

/// One loop, walked after the loops `before`.
pub open spec fn chain_ok<F: Fn(usize, usize) -> Reach>(
    owner: Seq<Option<usize>>,
    near: Seq<Seq<usize>>,
    gap: F,
    before: Seq<Seq<usize>>,
    chain: Seq<usize>,
    bridged: Seq<bool>,
) -> bool {
    &&& chain.len() >= 1
    &&& bridged.len() == chain.len()
    &&& !bridged[0]
    &&& starts_ok(owner, before, chain[0])
    &&& forall|j: int|
        0 <= j < chain.len() - 1 ==> #[trigger] step_ok(
            owner,
            near,
            gap,
            before,
            chain.take(j + 1),
            chain[j + 1],
            bridged[j + 1],
        )
    &&& ends_ok(owner, near, gap, before, chain)
}

/// The whole walk: every loop follows the rules, and every survivor was
/// walked.
pub open spec fn stitched<F: Fn(usize, usize) -> Reach>(
    owner: Seq<Option<usize>>,
    near: Seq<Seq<usize>>,
    gap: F,
    chains: Seq<Seq<usize>>,
    bridges: Seq<Seq<bool>>,
) -> bool {
    &&& chains.len() == bridges.len()
    &&& forall|li: int|
        0 <= li < chains.len() ==> #[trigger] chain_ok(
            owner,
            near,
            gap,
            chains.take(li),
            chains[li],
            bridges[li],
        )
    &&& forall|k: usize| survives(owner, k) ==> in_earlier(chains, k)
}

pub open spec fn near_view(near: Seq<Vec<usize>>) -> Seq<Seq<usize>> {
    Seq::new(near.len(), |i: int| near[i]@)
}

pub open spec fn chain_pieces(chains: Seq<Chain>) -> Seq<Seq<usize>> {
    Seq::new(chains.len(), |i: int| chains[i].pieces@)
}

pub open spec fn chain_bridges(chains: Seq<Chain>) -> Seq<Seq<bool>> {
    Seq::new(chains.len(), |i: int| chains[i].bridged@)
}

/// Unwalked survivor, by the walk's own bookkeeping.
pub open spec fn fresh(owner: Seq<Option<usize>>, used: Seq<bool>, c: usize) -> bool {
    survives(owner, c) && !used[c as int]
}

/// Unwalked survivor of the contour of piece `cur`.
pub open spec fn fresh_kin(owner: Seq<Option<usize>>, used: Seq<bool>, cur: usize, c: usize) -> bool {
    fresh(owner, used, c) && owner[c as int] == owner[cur as int]
}

/// Number of pieces not walked yet.
pub open spec fn n_unused(used: Seq<bool>) -> nat
    decreases used.len(),
{
    if used.len() == 0 {
        0
    } else {
        n_unused(used.drop_last()) + if used.last() {
            0nat
        } else {
            1nat
        }
    }
}

proof fn lemma_mark_used(used: Seq<bool>, k: int)
    requires
        0 <= k < used.len(),
        !used[k],
    ensures
        n_unused(used.update(k, true)) + 1 == n_unused(used),
    decreases used.len(),
{
    let marked = used.update(k, true);
    if k == used.len() - 1 {
        assert(marked.drop_last() =~= used.drop_last());
    } else {
        assert(marked.drop_last() =~= used.drop_last().update(k, true));
        lemma_mark_used(used.drop_last(), k);
    }
}

fn holds(v: &Vec<usize>, x: usize) -> (r: bool)
    ensures
        r == v@.contains(x),
{
    let mut i: usize = 0;
    while i < v.len()
        invariant
            i <= v.len(),
            forall|t: int| 0 <= t < i ==> v@[t] != x,
        decreases v.len() - i,
    {
        if v[i] == x {
            assert(v@[i as int] == x);
            return true;
        }
        i += 1;
    }
    false
}

/// The lowest unwalked survivor among `cands`.
fn least_fresh(cands: &Vec<usize>, owner: &Vec<Option<usize>>, used: &Vec<bool>) -> (r: Option<
    usize,
>)
    requires
        used.len() == owner.len(),
    ensures
        match r {
            Some(b) => cands@.contains(b) && fresh(owner@, used@, b) && forall|c: usize|
                cands@.contains(c) && fresh(owner@, used@, c) ==> b <= c,
            None => forall|c: usize| cands@.contains(c) ==> !fresh(owner@, used@, c),
        },
{
    let mut best: Option<usize> = None;
    let mut t: usize = 0;
    while t < cands.len()
        invariant
            t <= cands.len(),
            used.len() == owner.len(),
            match best {
                Some(b) => cands@.contains(b) && fresh(owner@, used@, b) && forall|i: int|
                    0 <= i < t && fresh(owner@, used@, cands@[i]) ==> b <= cands@[i],
                None => forall|i: int| 0 <= i < t ==> !fresh(owner@, used@, cands@[i]),
            },
        decreases cands.len() - t,
    {
        let k = cands[t];
        if k < owner.len() && owner[k].is_some() && !used[k] {
            let better = match best {
                Some(b) => k < b,
                None => true,
            };
            if better {
                assert(cands@[t as int] == k);
                best = Some(k);
            }
        }
        t += 1;
    }
    match best {
        Some(b) => {
            assert forall|c: usize| cands@.contains(c) && fresh(owner@, used@, c) implies b <= c by {
                let i = choose|i: int| 0 <= i < cands@.len() && cands@[i] == c;
            }
        },
        None => {
            assert forall|c: usize| cands@.contains(c) implies !fresh(owner@, used@, c) by {
                let i = choose|i: int| 0 <= i < cands@.len() && cands@[i] == c;
            }
        },
    }
    best
}

/// Piece `c` is a survivor of contour `o`.
pub open spec fn of_contour(owner: Seq<Option<usize>>, c: usize, o: usize) -> bool {
    survives(owner, c) && owner[c as int] == Some(o)
}

/// Piece `c` is a survivor of the contour of piece `a`.
pub open spec fn kin(owner: Seq<Option<usize>>, a: usize, c: usize) -> bool {
    survives(owner, c) && owner[c as int] == owner[a as int]
}

/// The per-contour successor link of piece `i` skips nothing unwalked: it
/// names a later piece of the same contour with every piece of that
/// contour in between already walked, or `None` when every later piece of
/// the contour is walked.
pub open spec fn link_ok(
    owner: Seq<Option<usize>>,
    used: Seq<bool>,
    links: Seq<Option<usize>>,
    i: usize,
) -> bool {
    match links[i as int] {
        Some(j) => i < j && kin(owner, i, j) && forall|c: usize|
            i < c < j && #[trigger] kin(owner, i, c) ==> used[c as int],
        None => forall|c: usize| i < c && #[trigger] kin(owner, i, c) ==> used[c as int],
    }
}

pub open spec fn links_ok(owner: Seq<Option<usize>>, used: Seq<bool>, links: Seq<Option<usize>>) -> bool {
    &&& links.len() == owner.len()
    &&& used.len() == owner.len()
    &&& forall|i: usize| survives(owner, i) ==> #[trigger] link_ok(owner, used, links, i)
}

/// The head of contour `o` is one of its pieces with every earlier piece
/// of the contour walked; `None` only for a contour without survivors.
pub open spec fn head_ok(owner: Seq<Option<usize>>, used: Seq<bool>, heads: Seq<Option<usize>>, o: usize) -> bool {
    match heads[o as int] {
        Some(h) => of_contour(owner, h, o) && forall|c: usize|
            c < h && #[trigger] of_contour(owner, c, o) ==> used[c as int],
        None => forall|c: usize| !#[trigger] of_contour(owner, c, o),
    }
}

pub open spec fn heads_ok(owner: Seq<Option<usize>>, used: Seq<bool>, heads: Seq<Option<usize>>) -> bool {
    &&& forall|o: usize| o < heads.len() ==> #[trigger] head_ok(owner, used, heads, o)
    &&& forall|c: usize| #[trigger] survives(owner, c) ==> owner[c as int]->0 < heads.len()
}

/// Walking more pieces keeps the index valid.
proof fn lemma_index_monotone(
    owner: Seq<Option<usize>>,
    used: Seq<bool>,
    more: Seq<bool>,
    links: Seq<Option<usize>>,
    heads: Seq<Option<usize>>,
)
    requires
        links_ok(owner, used, links),
        heads_ok(owner, used, heads),
        more.len() == used.len(),
        forall|c: int| 0 <= c < used.len() && used[c] ==> more[c],
    ensures
        links_ok(owner, more, links),
        heads_ok(owner, more, heads),
{
    assert forall|i: usize| survives(owner, i) implies #[trigger] link_ok(owner, more, links, i) by {
        assert(link_ok(owner, used, links, i));
    }
    assert forall|o: usize| o < heads.len() implies #[trigger] head_ok(owner, more, heads, o) by {
        assert(head_ok(owner, used, heads, o));
    }
}

/// The lowest unwalked survivor of the contour of `cur` after `cur`,
/// following the contour's links; the link of `cur` is shortened to the
/// answer, so walked pieces are not stepped over again from there.
fn next_free_after(
    owner: &Vec<Option<usize>>,
    used: &Vec<bool>,
    links: &mut Vec<Option<usize>>,
    cur: usize,
) -> (r: Option<usize>)
    requires
        survives(owner@, cur),
        links_ok(owner@, used@, old(links)@),
    ensures
        links_ok(owner@, used@, final(links)@),
        match r {
            Some(k) => cur < k && fresh_kin(owner@, used@, cur, k) && forall|c: usize|
                cur < c < k ==> !fresh_kin(owner@, used@, cur, c),
            None => forall|c: usize| cur < c ==> !fresh_kin(owner@, used@, cur, c),
        },
{
    let n = owner.len();
    let mut x = cur;
    let mut found: Option<usize> = None;
    loop
        invariant
            n == owner.len(),
            links_ok(owner@, used@, links@),
            cur <= x < n,
            kin(owner@, cur, x),
            forall|c: usize| cur < c <= x && kin(owner@, cur, c) ==> used@[c as int],
        ensures
            match found {
                Some(k) => cur < k && fresh_kin(owner@, used@, cur, k) && forall|c: usize|
                    cur < c < k ==> !fresh_kin(owner@, used@, cur, c),
                None => forall|c: usize| cur < c ==> !fresh_kin(owner@, used@, cur, c),
            },
            links_ok(owner@, used@, links@),
        decreases n - x,
    {
        assert(link_ok(owner@, used@, links@, x));
        match links[x] {
            None => {
                assert forall|c: usize| cur < c implies !fresh_kin(owner@, used@, cur, c) by {
                    if x < c && kin(owner@, cur, c) {
                        assert(kin(owner@, x, c));
                    }
                }
                found = None;
                break;
            },
            Some(j) => {
                assert forall|c: usize| cur < c < j && kin(owner@, cur, c) implies used@[c as int] by {
                    if x < c {
                        assert(kin(owner@, x, c));
                    }
                }
                if !used[j] {
                    found = Some(j);
                    break;
                }
                x = j;
            },
        }
    }
    links.set(cur, found);
    assert forall|i: usize| survives(owner@, i) implies #[trigger] link_ok(owner@, used@, links@, i) by {
        if i != cur {
            assert(links@[i as int] == old(links)@[i as int]);
            assert(link_ok(owner@, used@, old(links)@, i));
        } else {
            match found {
                Some(k) => {
                    assert forall|c: usize| cur < c < k && #[trigger] kin(owner@, cur, c) implies used@[c as int] by {
                        assert(!fresh_kin(owner@, used@, cur, c));
                    }
                },
                None => {
                    assert forall|c: usize| cur < c && #[trigger] kin(owner@, cur, c) implies used@[c as int] by {
                        assert(!fresh_kin(owner@, used@, cur, c));
                    }
                },
            }
        }
    }
    found
}

/// The next unwalked survivor of the contour of `cur`, in index order,
/// wrapping around.
fn next_of_kin(
    owner: &Vec<Option<usize>>,
    used: &Vec<bool>,
    links: &mut Vec<Option<usize>>,
    heads: &mut Vec<Option<usize>>,
    cur: usize,
) -> (r: Option<usize>)
    requires
        survives(owner@, cur),
        used@[cur as int],
        links_ok(owner@, used@, old(links)@),
        heads_ok(owner@, used@, old(heads)@),
    ensures
        links_ok(owner@, used@, final(links)@),
        heads_ok(owner@, used@, final(heads)@),
        match r {
            Some(k) => fresh_kin(owner@, used@, cur, k) && ((cur < k && forall|c: usize|
                cur < c < k ==> !fresh_kin(owner@, used@, cur, c)) || ((forall|c: usize|
                cur < c ==> !fresh_kin(owner@, used@, cur, c)) && forall|c: usize|
                c < k ==> !fresh_kin(owner@, used@, cur, c))),
            None => forall|c: usize| !fresh_kin(owner@, used@, cur, c),
        },
{
    let after = next_free_after(owner, used, links, cur);
    if after.is_some() {
        return after;
    }
    let o = match owner[cur] {
        Some(o) => o,
        None => {
            return None;
        },
    };
    assert(survives(owner@, cur));
    assert(head_ok(owner@, used@, heads@, o));
    let h = match heads[o] {
        Some(h) => h,
        None => {
            assert(of_contour(owner@, cur, o));
            return None;
        },
    };
    assert forall|c: usize| c < h implies !fresh_kin(owner@, used@, cur, c) by {
        if fresh_kin(owner@, used@, cur, c) {
            assert(of_contour(owner@, c, o));
        }
    }
    if !used[h] {
        return Some(h);
    }
    assert(kin(owner@, cur, h));
    let r = next_free_after(owner, used, links, h);
    match r {
        Some(k) => {
            heads.set(o, Some(k));
            assert forall|p: usize| p < heads@.len() implies #[trigger] head_ok(owner@, used@, heads@, p) by {
                if p != o {
                    assert(head_ok(owner@, used@, old(heads)@, p));
                } else {
                    assert forall|c: usize| c < k && #[trigger] of_contour(owner@, c, o) implies used@[c as int] by {
                        if c > h {
                            assert(!fresh_kin(owner@, used@, h, c));
                        } else if c < h {
                            assert(head_ok(owner@, used@, old(heads)@, o));
                        }
                    }
                }
            }
            assert forall|c: usize| c < k implies !fresh_kin(owner@, used@, cur, c) by {
                if h < c {
                    assert(!fresh_kin(owner@, used@, h, c));
                }
            }
        },
        None => {
            assert forall|c: usize| !fresh_kin(owner@, used@, cur, c) by {
                if h < c {
                    assert(!fresh_kin(owner@, used@, h, c));
                }
            }
        },
    }
    r
}

/// The contour index for the walk: per piece, the next survivor of its
/// contour; per contour, its first survivor.
fn contour_index(owner: &Vec<Option<usize>>, used: &Vec<bool>) -> (r: (Vec<Option<usize>>, Vec<Option<usize>>))
    requires
        used.len() == owner.len(),
        forall|c: int| 0 <= c < used.len() ==> !used@[c],
        forall|c: int| 0 <= c < owner.len() && #[trigger] owner@[c] is Some ==> owner@[c]->0 < usize::MAX,
    ensures
        links_ok(owner@, used@, r.0@),
        heads_ok(owner@, used@, r.1@),
{
    let n = owner.len();
    let mut n_contours: usize = 0;
    let mut i: usize = 0;
    while i < n
        invariant
            n == owner.len(),
            i <= n,
            forall|c: int| 0 <= c < owner.len() && #[trigger] owner@[c] is Some ==> owner@[c]->0 < usize::MAX,
            forall|c: usize| c < i && survives(owner@, c) ==> owner@[c as int]->0 < n_contours,
        decreases n - i,
    {
        if let Some(o) = owner[i] {
            if o >= n_contours {
                n_contours = o + 1;
            }
        }
        i += 1;
    }
    let mut heads: Vec<Option<usize>> = Vec::new();
    while heads.len() < n_contours
        invariant
            heads.len() <= n_contours,
            forall|o: int| 0 <= o < heads.len() ==> heads@[o] is None,
        decreases n_contours - heads.len(),
    {
        heads.push(None);
    }
    let mut links: Vec<Option<usize>> = Vec::new();
    while links.len() < n
        invariant
            links.len() <= n,
        decreases n - links.len(),
    {
        links.push(None);
    }
    let mut i: usize = n;
    while i > 0
        invariant
            n == owner.len(),
            used.len() == n,
            forall|c: int| 0 <= c < used.len() ==> !used@[c],
            i <= n,
            links.len() == n,
            heads.len() == n_contours,
            forall|c: usize| survives(owner@, c) ==> owner@[c as int]->0 < n_contours,
            forall|j: usize| i <= j && survives(owner@, j) ==> #[trigger] link_ok(owner@, used@, links@, j),
            forall|o: usize|
                o < n_contours ==> match #[trigger] heads@[o as int] {
                    Some(h) => i <= h && of_contour(owner@, h, o) && forall|c: usize|
                        i <= c < h ==> !of_contour(owner@, c, o),
                    None => forall|c: usize| i <= c ==> !of_contour(owner@, c, o),
                },
        decreases i,
    {
        i -= 1;
        if let Some(o) = owner[i] {
            assert(survives(owner@, i));
            let next = heads[o];
            let ghost old_heads = heads@;
            let ghost old_links = links@;
            assert(match old_heads[o as int] {
                Some(h) => i + 1 <= h && of_contour(owner@, h, o) && forall|c: usize|
                    i + 1 <= c < h ==> !of_contour(owner@, c, o),
                None => forall|c: usize| i + 1 <= c ==> !of_contour(owner@, c, o),
            });
            links.set(i, next);
            heads.set(o, Some(i));
            assert forall|j: usize| i <= j && survives(owner@, j) implies #[trigger] link_ok(owner@, used@, links@, j) by {
                if j == i {
                    match next {
                        Some(h) => {
                            assert forall|c: usize| i < c < h && #[trigger] kin(owner@, i, c) implies used@[c as int] by {
                                assert(of_contour(owner@, c, o));
                            }
                        },
                        None => {
                            assert forall|c: usize| i < c && #[trigger] kin(owner@, i, c) implies used@[c as int] by {
                                assert(of_contour(owner@, c, o));
                            }
                        },
                    }
                } else {
                    assert(links@[j as int] == old_links[j as int]);
                    assert(link_ok(owner@, used@, old_links, j));
                }
            }
            assert forall|p: usize| p < n_contours implies match #[trigger] heads@[p as int] {
                Some(h) => i <= h && of_contour(owner@, h, p) && forall|c: usize|
                    i <= c < h ==> !of_contour(owner@, c, p),
                None => forall|c: usize| i <= c ==> !of_contour(owner@, c, p),
            } by {
                assert(old_heads[p as int] == if p == o { old_heads[p as int] } else { heads@[p as int] });
            }
        }
    }
    assert forall|o: usize| o < heads@.len() implies #[trigger] head_ok(owner@, used@, heads@, o) by {
        assert(match heads@[o as int] {
            Some(h) => 0 <= h && of_contour(owner@, h, o) && forall|c: usize|
                0 <= c < h ==> !of_contour(owner@, c, o),
            None => forall|c: usize| 0 <= c ==> !of_contour(owner@, c, o),
        });
    }
    (links, heads)
}

/// Walk the surviving pieces into loops.
///
/// `owner[i]` is the contour piece `i` belongs to, `None` for a piece that
/// was dropped. `near[i]` lists the pieces whose start lies where piece `i`
/// ends (in any order; entries that are not survivors are ignored).
/// `gap(a, b)` tells how far the start of `b` lies from the end of `a`.
/// Contour ids index a per-contour table, so `usize::MAX` is not one.
///
/// Continuations come from `near`; the same-contour fallback follows a
/// per-contour index (each piece's next survivor of its contour, each
/// contour's first unwalked piece) whose links are shortened as pieces are
/// walked, so it does not rescan the whole piece list.
pub fn stitch_pieces<F: Fn(usize, usize) -> Reach>(
    owner: &Vec<Option<usize>>,
    near: &Vec<Vec<usize>>,
    gap: &F,
) -> (chains: Vec<Chain>)
    requires
        near.len() == owner.len(),
        forall|a: usize, b: usize| gap.requires((a, b)),
        forall|c: int| 0 <= c < owner.len() && #[trigger] owner@[c] is Some ==> owner@[c]->0 < usize::MAX,
    ensures
        stitched(owner@, near_view(near@), *gap, chain_pieces(chains@), chain_bridges(chains@)),
{
    let n = owner.len();
    let ghost nv = near_view(near@);
    let mut used: Vec<bool> = Vec::new();
    while used.len() < n
        invariant
            used.len() <= n,
            forall|i: int| 0 <= i < used.len() ==> !used@[i],
        decreases n - used.len(),
    {
        used.push(false);
    }
    let (mut links, mut heads) = contour_index(owner, &used);
    let mut chains: Vec<Chain> = Vec::new();
    assert forall|k: usize| k < n implies (used@[k as int] <==> in_earlier(
        chain_pieces(chains@),
        k,
    )) by {}
    let mut scan: usize = 0;
    while scan < n
        invariant
            n == owner.len(),
            near.len() == n,
            used.len() == n,
            nv == near_view(near@),
            links_ok(owner@, used@, links@),
            heads_ok(owner@, used@, heads@),
            scan <= n,
            forall|a: usize, b: usize| gap.requires((a, b)),
            chain_pieces(chains@).len() == chain_bridges(chains@).len(),
            forall|li: int|
                0 <= li < chains@.len() ==> #[trigger] chain_ok(
                    owner@,
                    nv,
                    *gap,
                    chain_pieces(chains@).take(li),
                    chain_pieces(chains@)[li],
                    chain_bridges(chains@)[li],
                ),
            forall|k: usize| k < n ==> (used@[k as int] <==> in_earlier(chain_pieces(chains@), k)),
            forall|c: usize| c < scan && survives(owner@, c) ==> used@[c as int],
        decreases n - scan,
    {
        if owner[scan].is_none() || used[scan] {
            scan += 1;
            continue;
        }
        let ghost done = chain_pieces(chains@);
        let start = scan;
        let mut cur = start;
        let mut pieces: Vec<usize> = Vec::new();
        pieces.push(start);
        let mut bridged: Vec<bool> = Vec::new();
        bridged.push(false);
        let ghost before_used = used@;
        proof {
            lemma_mark_used(used@, start as int);
        }
        used.set(start, true);
        proof {
            lemma_index_monotone(owner@, before_used, used@, links@, heads@);
        }
        assert(starts_ok(owner@, done, start));
        assert forall|k: usize| k < n implies (used@[k as int] <==> walked(done, pieces@, k)) by {
            if k == start {
                assert(pieces@[0] == k);
            }
        }
        loop
            invariant
                n == owner.len(),
                near.len() == n,
                used.len() == n,
                nv == near_view(near@),
                links_ok(owner@, used@, links@),
                heads_ok(owner@, used@, heads@),
                start < n,
                forall|a: usize, b: usize| gap.requires((a, b)),
                done == chain_pieces(chains@),
                pieces@.len() >= 1,
                pieces@[0] == start,
                cur == pieces@.last(),
                cur < n,
                survives(owner@, cur),
                bridged@.len() == pieces@.len(),
                !bridged@[0],
                starts_ok(owner@, done, start),
                forall|j: int|
                    0 <= j < pieces@.len() - 1 ==> #[trigger] step_ok(
                        owner@,
                        nv,
                        *gap,
                        done,
                        pieces@.take(j + 1),
                        pieces@[j + 1],
                        bridged@[j + 1],
                    ),
                forall|k: usize| k < n ==> (used@[k as int] <==> walked(done, pieces@, k)),
                forall|c: usize| c < scan && survives(owner@, c) ==> used@[c as int],
            ensures
                ends_ok(owner@, nv, *gap, done, pieces@),
            decreases n_unused(used@),
        {
            assert(nv[cur as int] == near@[cur as int]@);
            if holds(&near[cur], start) {
                break;
            }
            assert forall|c: usize|
                continues(owner@, nv, done, pieces@, c) == (near@[cur as int]@.contains(c) && fresh(
                    owner@,
                    used@,
                    c,
                )) by {}
            assert forall|c: usize|
                falls_back(owner@, done, pieces@, c) == fresh_kin(owner@, used@, cur, c) by {}
            let next = match least_fresh(&near[cur], owner, &used) {
                Some(k) => Some(k),
                None => next_of_kin(owner, &used, &mut links, &mut heads, cur),
            };
            let k = match next {
                Some(k) => k,
                None => {
                    break;
                },
            };
            assert(is_next(owner@, nv, done, pieces@, k));
            let r = gap(cur, k);
            if r == Reach::TooFar {
                break;
            }
            let ghost old_pieces = pieces@;
            let ghost old_bridged = bridged@;
            assert(step_ok(owner@, nv, *gap, done, old_pieces, k, r == Reach::Bridge));
            let ghost before_used = used@;
            proof {
                lemma_mark_used(used@, k as int);
            }
            used.set(k, true);
            proof {
                lemma_index_monotone(owner@, before_used, used@, links@, heads@);
            }
            pieces.push(k);
            bridged.push(r == Reach::Bridge);
            cur = k;
            assert forall|j: int| 0 <= j < pieces@.len() - 1 implies #[trigger] step_ok(
                owner@,
                nv,
                *gap,
                done,
                pieces@.take(j + 1),
                pieces@[j + 1],
                bridged@[j + 1],
            ) by {
                if j < old_pieces.len() - 1 {
                    assert(pieces@.take(j + 1) =~= old_pieces.take(j + 1));
                } else {
                    assert(pieces@.take(j + 1) =~= old_pieces);
                }
            }
            assert forall|c: usize| c < n implies (used@[c as int] <==> walked(done, pieces@, c)) by {
                if c == k {
                    assert(pieces@[pieces@.len() - 1] == k);
                }
                if old_pieces.contains(c) {
                    let b = choose|b: int| 0 <= b < old_pieces.len() && old_pieces[b] == c;
                    assert(pieces@[b] == c);
                }
            }
        }
        let ghost p = pieces@;
        let ghost b = bridged@;
        let ghost old_bridges = chain_bridges(chains@);
        assert(chain_ok(owner@, nv, *gap, done, p, b));
        chains.push(Chain { pieces, bridged });
        assert(chain_pieces(chains@) =~= done.push(p));
        assert(chain_bridges(chains@) =~= old_bridges.push(b));
        assert forall|li: int| 0 <= li < chains@.len() implies #[trigger] chain_ok(
            owner@,
            nv,
            *gap,
            chain_pieces(chains@).take(li),
            chain_pieces(chains@)[li],
            chain_bridges(chains@)[li],
        ) by {
            if li < done.len() {
                assert(chain_pieces(chains@).take(li) =~= done.take(li));
            } else {
                assert(chain_pieces(chains@).take(li) =~= done);
            }
        }
        assert forall|k: usize| k < n implies (used@[k as int] <==> in_earlier(
            chain_pieces(chains@),
            k,
        )) by {
            let all = chain_pieces(chains@);
            if in_earlier(done, k) {
                let a = choose|a: int| 0 <= a < done.len() && #[trigger] done[a].contains(k);
                assert(all[a] == done[a]);
            }
            if p.contains(k) {
                assert(all[done.len() as int] == p);
            }
            if in_earlier(all, k) {
                let a = choose|a: int| 0 <= a < all.len() && #[trigger] all[a].contains(k);
                if a < done.len() {
                    assert(all[a] == done[a]);
                }
            }
        }
        scan += 1;
    }
    chains
}

/// Every piece the walk puts in a loop is a survivor, and it is walked
/// once: no piece appears twice, in one loop or across loops.
pub proof fn lemma_walk_visits_each_survivor_once<F: Fn(usize, usize) -> Reach>(
    owner: Seq<Option<usize>>,
    near: Seq<Seq<usize>>,
    gap: F,
    chains: Seq<Seq<usize>>,
    bridges: Seq<Seq<bool>>,
)
    requires
        stitched(owner, near, gap, chains, bridges),
    ensures
        forall|li: int, j: int|
            0 <= li < chains.len() && 0 <= j < chains[li].len() ==> survives(
                owner,
                #[trigger] chains[li][j],
            ),
        forall|l1: int, j1: int, l2: int, j2: int|
            0 <= l1 < chains.len() && 0 <= j1 < chains[l1].len() && 0 <= l2 < chains.len() && 0
                <= j2 < chains[l2].len() && #[trigger] chains[l1][j1] == #[trigger] chains[l2][j2]
                ==> l1 == l2 && j1 == j2,
        forall|k: usize|
            survives(owner, k) ==> exists|li: int, j: int|
                0 <= li < chains.len() && 0 <= j < chains[li].len() && #[trigger] chains[li][j]
                    == k,
{
    assert forall|li: int, j: int| 0 <= li < chains.len() && 0 <= j < chains[li].len() implies (
    survives(owner, #[trigger] chains[li][j]) && !in_earlier(chains.take(li), chains[li][j])
        && !chains[li].take(j).contains(chains[li][j])) by {
        assert(chain_ok(owner, near, gap, chains.take(li), chains[li], bridges[li]));
        if j > 0 {
            let prefix = chains[li].take(j);
            assert(step_ok(
                owner,
                near,
                gap,
                chains.take(li),
                chains[li].take((j - 1) + 1),
                chains[li][(j - 1) + 1],
                bridges[li][(j - 1) + 1],
            ));
            assert(prefix =~= chains[li].take((j - 1) + 1));
        } else {
            assert(chains[li].take(0) =~= Seq::<usize>::empty());
        }
    }
    assert forall|l1: int, j1: int, l2: int, j2: int|
        0 <= l1 < chains.len() && 0 <= j1 < chains[l1].len() && 0 <= l2 < chains.len() && 0 <= j2
            < chains[l2].len() && #[trigger] chains[l1][j1] == #[trigger] chains[l2][j2] implies l1
        == l2 && j1 == j2 by {
        let k = chains[l1][j1];
        if l1 < l2 {
            assert(chains.take(l2)[l1] == chains[l1]);
            assert(chains.take(l2)[l1][j1] == k);
            assert(chains.take(l2)[l1].contains(k));
            assert(in_earlier(chains.take(l2), k));
        } else if l2 < l1 {
            assert(chains.take(l1)[l2] == chains[l2]);
            assert(chains.take(l1)[l2][j2] == k);
            assert(chains.take(l1)[l2].contains(k));
            assert(in_earlier(chains.take(l1), k));
        } else if j1 < j2 {
            assert(chains[l2].take(j2)[j1] == k);
        } else if j2 < j1 {
            assert(chains[l1].take(j1)[j2] == k);
        }
    }
    assert forall|k: usize| survives(owner, k) implies exists|li: int, j: int|
        0 <= li < chains.len() && 0 <= j < chains[li].len() && #[trigger] chains[li][j] == k by {
        assert(in_earlier(chains, k));
        let li = choose|a: int| 0 <= a < chains.len() && #[trigger] chains[a].contains(k);
        let j = choose|j: int| 0 <= j < chains[li].len() && chains[li][j] == k;
        assert(chains[li][j] == k);
    }
}

} // verus!
