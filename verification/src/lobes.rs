//! Decomposing a self-intersecting subpath into lobes and strands.
//!
//! A subpath cut at its self-intersections becomes a run of arcs, each
//! ending either at a crossing or at the subpath's end. Walking the arcs in
//! path order with a stack of open crossings, the arcs between two visits
//! of the same crossing form a closed lobe; whatever is left forms the
//! trailing strand. Crossings opened inside a run that was just closed are
//! dropped with it, so interleaved crossing patterns decompose only
//! partially, but every arc still lands in exactly one piece.

use vstd::prelude::*;

verus! {

/// The walk's state after some prefix of the arcs.
pub struct LobeState {
    /// Arcs not yet assigned to a lobe, in path order.
    pub chain: Seq<usize>,
    /// Per crossing: the chain length right after the arc that opened it.
    pub open: Seq<Option<usize>>,
    /// The lobes found so far.
    pub pieces: Seq<Seq<usize>>,
}

/// Drop every open crossing whose mark lies at or beyond `mark`.
pub open spec fn clear_from(open: Seq<Option<usize>>, mark: int) -> Seq<Option<usize>> {
    Seq::new(
        open.len(),
        |i: int| if open[i] is Some && open[i]->0 >= mark { None } else { open[i] },
    )
}

/// One step of the walk: arc `aix`, ending at crossing `ec` (if any).
pub open spec fn lobe_step(st: LobeState, aix: usize, ec: Option<usize>) -> LobeState {
    let chain = st.chain.push(aix);
    match ec {
        None => LobeState { chain, open: st.open, pieces: st.pieces },
        Some(c) => match st.open[c as int] {
            Some(mark) => LobeState {
                chain: chain.subrange(0, mark as int),
                open: clear_from(st.open.update(c as int, None), mark as int),
                pieces: st.pieces.push(chain.subrange(mark as int, chain.len() as int)),
            },
            None => LobeState {
                chain,
                open: st.open.update(c as int, Some(chain.len() as usize)),
                pieces: st.pieces,
            },
        },
    }
}

/// The walk's state after the first `k` arcs.
pub open spec fn lobe_run(ec: Seq<Option<usize>>, n_crossings: nat, k: nat) -> LobeState
    decreases k,
{
    if k == 0 {
        LobeState {
            chain: Seq::empty(),
            open: Seq::new(n_crossings, |i: int| None),
            pieces: Seq::empty(),
        }
    } else {
        lobe_step(lobe_run(ec, n_crossings, (k - 1) as nat), (k - 1) as usize, ec[k - 1])
    }
}

/// The pieces of the decomposition: every lobe in the order it closed, then
/// the leftover chain if it is not empty.
pub open spec fn spec_assemble(ec: Seq<Option<usize>>, n_crossings: nat) -> Seq<Seq<usize>> {
    let st = lobe_run(ec, n_crossings, ec.len());
    if st.chain.len() > 0 { st.pieces.push(st.chain) } else { st.pieces }
}

/// How many of the pieces are closed lobes (the rest is the leftover chain).
pub open spec fn spec_lobe_count(ec: Seq<Option<usize>>, n_crossings: nat) -> nat {
    lobe_run(ec, n_crossings, ec.len()).pieces.len()
}

/// Every crossing id names one of the `n_crossings` crossings.
pub open spec fn crossings_in_range(ec: Seq<Option<usize>>, n_crossings: nat) -> bool {
    forall|i: int| 0 <= i < ec.len() && #[trigger] ec[i] is Some ==> ec[i]->0 < n_crossings
}

/// Strictly increasing.
pub open spec fn increasing(s: Seq<usize>) -> bool {
    forall|i: int, j: int| 0 <= i < j < s.len() ==> s[i] < s[j]
}

/// Assemble the arcs of a cut subpath into pieces.
///
/// `end_crossing[i]` is the crossing at which arc `i` ends, or `None` for
/// the arc that ends the subpath. The result lists arc indices per piece.
pub fn assemble_lobes(end_crossing: &Vec<Option<usize>>, n_crossings: usize) -> (r: Vec<Vec<usize>>)
    requires
        crossings_in_range(end_crossing@, n_crossings as nat),
    ensures
        r.deep_view() == spec_assemble(end_crossing@, n_crossings as nat),
{
    let ghost ec = end_crossing@;
    let ghost n = n_crossings as nat;
    let mut chain: Vec<usize> = Vec::new();
    let mut open: Vec<Option<usize>> = Vec::new();
    let mut i: usize = 0;
    while i < n_crossings
        invariant
            i <= n_crossings,
            open@ =~= Seq::new(i as nat, |j: int| None::<usize>),
        decreases n_crossings - i,
    {
        open.push(None);
        i = i + 1;
    }
    let mut pieces: Vec<Vec<usize>> = Vec::new();
    assert(pieces.deep_view() =~= Seq::<Seq<usize>>::empty());
    let len = end_crossing.len();
    let mut aix: usize = 0;
    while aix < len
        invariant
            len == end_crossing@.len(),
            ec == end_crossing@,
            n == n_crossings as nat,
            crossings_in_range(ec, n),
            aix <= len,
            open@.len() == n,
            chain@ == lobe_run(ec, n, aix as nat).chain,
            open@ == lobe_run(ec, n, aix as nat).open,
            pieces.deep_view() == lobe_run(ec, n, aix as nat).pieces,
            forall|c: int| 0 <= c < open@.len() && #[trigger] open@[c] is Some ==> open@[c]->0 <= chain@.len(),
        decreases len - aix,
    {
        let ghost st = lobe_run(ec, n, aix as nat);
        chain.push(aix);
        match end_crossing[aix] {
            None => {},
            Some(c) => {
                assert(ec[aix as int] is Some);
                match open[c] {
                    Some(mark) => {
                        open.set(c, None);
                        let lobe = chain.split_off(mark);
                        let cl = chain.len();
                        let ghost before = open@;
                        let mut j: usize = 0;
                        let olen = open.len();
                        while j < olen
                            invariant
                                olen == open@.len(),
                                before.len() == olen,
                                j <= olen,
                                forall|t: int| 0 <= t < j ==> #[trigger] open@[t] == (if before[t] is Some && before[t]->0 >= cl { None } else { before[t] }),
                                forall|t: int| j <= t < olen ==> #[trigger] open@[t] == before[t],
                            decreases olen - j,
                        {
                            match open[j] {
                                Some(m) => {
                                    if m >= cl {
                                        open.set(j, None);
                                    }
                                },
                                None => {},
                            }
                            j = j + 1;
                        }
                        assert(open@ =~= clear_from(before, cl as int));
                        let ghost old_pieces = pieces.deep_view();
                        assert(lobe.deep_view() =~= lobe@);
                        pieces.push(lobe);
                        assert(pieces.deep_view() =~= old_pieces.push(lobe@));
                    },
                    None => {
                        open.set(c, Some(chain.len()));
                    },
                }
            },
        }
        proof {
            assert(lobe_run(ec, n, (aix + 1) as nat) == lobe_step(st, aix, ec[aix as int]));
        }
        aix = aix + 1;
    }
    if chain.len() > 0 {
        let ghost old_pieces = pieces.deep_view();
        assert(chain.deep_view() =~= chain@);
        pieces.push(chain);
        assert(pieces.deep_view() =~= old_pieces.push(lobe_run(ec, n, len as nat).chain));
    }
    pieces
}


/// Every piece slot of a state: the lobes found so far, then the chain.
pub open spec fn slots(st: LobeState) -> Seq<Seq<usize>> {
    st.pieces.push(st.chain)
}

/// No arc index occurs twice across the given pieces.
pub open spec fn all_distinct(s: Seq<Seq<usize>>) -> bool {
    forall|p: int, i: int, q: int, j: int|
        0 <= p < s.len() && 0 <= i < s[p].len() && 0 <= q < s.len() && 0 <= j < s[q].len()
            && #[trigger] s[p][i] == #[trigger] s[q][j] ==> p == q && i == j
}

/// Arc index `x` occurs in some piece.
pub open spec fn occurs(s: Seq<Seq<usize>>, x: int) -> bool {
    exists|p: int, i: int| 0 <= p < s.len() && 0 <= i < s[p].len() && #[trigger] s[p][i] == x
}

/// Every arc index below `k` occurs in some piece.
pub open spec fn covers(s: Seq<Seq<usize>>, k: int) -> bool {
    forall|x: int| 0 <= x < k ==> #[trigger] occurs(s, x)
}

/// Every arc index in the pieces is below `k`.
pub open spec fn bounded(s: Seq<Seq<usize>>, k: int) -> bool {
    forall|p: int, i: int| 0 <= p < s.len() && 0 <= i < s[p].len() ==> #[trigger] s[p][i] < k
}

/// Every piece is strictly increasing.
pub open spec fn all_increasing(s: Seq<Seq<usize>>) -> bool {
    forall|p: int| 0 <= p < s.len() ==> increasing(#[trigger] s[p])
}

/// A lobe ends at a crossing that an arc before the lobe also ends at: the
/// lobe runs from that crossing back to it.
pub open spec fn returns_to_crossing(ec: Seq<Option<usize>>, lobe: Seq<usize>) -> bool {
    &&& lobe.len() > 0
    &&& ec[lobe.last() as int] is Some
    &&& exists|a: int| 0 <= a < lobe[0] && #[trigger] ec[a] == ec[lobe.last() as int]
}

/// Open crossings point just past the chain arc that opened them.
pub open spec fn open_marks_valid(ec: Seq<Option<usize>>, st: LobeState) -> bool {
    forall|c: int|
        0 <= c < st.open.len() && #[trigger] st.open[c] is Some ==> {
            let m = st.open[c]->0 as int;
            &&& 1 <= m <= st.chain.len()
            &&& ec[st.chain[m - 1] as int] == Some(c as usize)
        }
}

/// What the walk keeps true after the first `k` arcs.
pub open spec fn run_inv(ec: Seq<Option<usize>>, n: nat, k: int, st: LobeState) -> bool {
    &&& st.open.len() == n
    &&& st.chain.len() <= k
    &&& open_marks_valid(ec, st)
    &&& all_increasing(slots(st))
    &&& bounded(slots(st), k)
    &&& all_distinct(slots(st))
    &&& covers(slots(st), k)
    &&& forall|p: int| 0 <= p < st.pieces.len() ==> returns_to_crossing(ec, #[trigger] st.pieces[p])
}

proof fn lemma_step_keep(ec: Seq<Option<usize>>, n: nat, k: int, st: LobeState)
    requires
        0 <= k < ec.len() <= usize::MAX,
        crossings_in_range(ec, n),
        run_inv(ec, n, k, st),
        ec[k] is None || st.open[ec[k]->0 as int] is None,
    ensures
        run_inv(ec, n, k + 1, lobe_step(st, k as usize, ec[k])),
{
    let st2 = lobe_step(st, k as usize, ec[k]);
    let s1 = slots(st);
    let s2 = slots(st2);
    assert(st2.chain == st.chain.push(k as usize));
    assert(st2.pieces == st.pieces);
    let last = st.pieces.len() as int;
    assert forall|p: int, i: int| 0 <= p < s2.len() && 0 <= i < s2[p].len() implies
        #[trigger] s2[p][i] == if p == last && i == st.chain.len() { k as usize } else { s1[p][i] } by {
    }
    assert forall|p: int| 0 <= p < s2.len() implies increasing(#[trigger] s2[p]) by {
        assert(increasing(s1[p]));
        if p == last {
            assert forall|i: int, j: int| 0 <= i < j < s2[p].len() implies s2[p][i] < s2[p][j] by {
                if j == st.chain.len() {
                    assert(s1[p][i] < k);
                }
            }
        }
    }
    assert forall|x: int| 0 <= x < k + 1 implies occurs(s2, x) by {
        if x == k {
            assert(s2[last][st.chain.len() as int] == x);
        } else {
            assert(occurs(s1, x));
            let (p, i) = choose|p: int, i: int| 0 <= p < s1.len() && 0 <= i < s1[p].len() && #[trigger] s1[p][i] == x;
            assert(s2[p][i] == x);
        }
    }
    assert(all_distinct(s2)) by {
        assert forall|p: int, i: int, q: int, j: int|
            0 <= p < s2.len() && 0 <= i < s2[p].len() && 0 <= q < s2.len() && 0 <= j < s2[q].len()
                && #[trigger] s2[p][i] == #[trigger] s2[q][j] implies p == q && i == j by {
            let pn = p == last && i == st.chain.len();
            let qn = q == last && j == st.chain.len();
            if !pn && !qn {
                assert(s1[p][i] == s1[q][j]);
            } else if pn && !qn {
                assert(s1[q][j] < k);
            } else if !pn && qn {
                assert(s1[p][i] < k);
            }
        }
    }
    assert forall|p: int| 0 <= p < st2.pieces.len() implies returns_to_crossing(ec, #[trigger] st2.pieces[p]) by {
        assert(returns_to_crossing(ec, st.pieces[p]));
    }
    assert forall|c: int| 0 <= c < st2.open.len() && #[trigger] st2.open[c] is Some implies {
        let m = st2.open[c]->0 as int;
        &&& 1 <= m <= st2.chain.len()
        &&& ec[st2.chain[m - 1] as int] == Some(c as usize)
    } by {
        if ec[k] is Some && c == ec[k]->0 as int {
            assert(st2.open[c]->0 == st2.chain.len());
            assert(st2.chain[st2.chain.len() - 1] == k as usize);
            assert(ec[k] == Some(c as usize));
        } else {
            assert(st2.open[c] == st.open[c]);
            assert(st.open[c] is Some);
            let m = st.open[c]->0 as int;
            assert(1 <= m <= st.chain.len());
            assert(st2.chain[m - 1] == st.chain[m - 1]);
            assert(ec[st.chain[m - 1] as int] == Some(c as usize));
        }
    }
}

proof fn lemma_step_close(ec: Seq<Option<usize>>, n: nat, k: int, st: LobeState)
    requires
        0 <= k < ec.len() <= usize::MAX,
        crossings_in_range(ec, n),
        run_inv(ec, n, k, st),
        ec[k] is Some,
        st.open[ec[k]->0 as int] is Some,
    ensures
        run_inv(ec, n, k + 1, lobe_step(st, k as usize, ec[k])),
{
    let c = ec[k]->0 as int;
    let mark = st.open[c]->0 as int;
    assert(1 <= mark <= st.chain.len());
    let chain1 = st.chain.push(k as usize);
    let st2 = lobe_step(st, k as usize, ec[k]);
    let lobe = chain1.subrange(mark, chain1.len() as int);
    assert(st2.chain == chain1.subrange(0, mark));
    assert(st2.pieces == st.pieces.push(lobe));
    let s1 = slots(st);
    let s2 = slots(st2);
    let last = st.pieces.len() as int;
    assert(s2.len() == last + 2);
    // chain1 is increasing with every entry below k + 1
    assert forall|i: int, j: int| 0 <= i < j < chain1.len() implies chain1[i] < chain1[j] by {
        assert(increasing(s1[last]));
        if j == st.chain.len() {
            assert(s1[last][i] < k);
        } else {
            assert(s1[last][i] < s1[last][j]);
        }
    }
    // where each slot of the new state came from
    assert forall|p: int, i: int| 0 <= p < last && 0 <= i < s2[p].len() implies #[trigger] s2[p][i] == s1[p][i] by {}
    assert forall|i: int| 0 <= i < lobe.len() implies #[trigger] lobe[i] == chain1[i + mark] by {}
    assert forall|i: int| 0 <= i < mark implies #[trigger] st2.chain[i] == chain1[i] by {}
    assert(s2[last] == lobe);
    assert(s2[last + 1] == st2.chain);
    assert forall|p: int| 0 <= p < s2.len() implies increasing(#[trigger] s2[p]) by {
        if p < last {
            assert(s2[p] == s1[p]);
            assert(increasing(s1[p]));
        } else if p == last {
            assert forall|i: int, j: int| 0 <= i < j < lobe.len() implies lobe[i] < lobe[j] by {
                assert(chain1[i + mark] < chain1[j + mark]);
            }
        } else {
            assert forall|i: int, j: int| 0 <= i < j < st2.chain.len() implies st2.chain[i] < st2.chain[j] by {
                assert(chain1[i] < chain1[j]);
            }
        }
    }
    // chain1 entries below k + 1
    assert forall|i: int| 0 <= i < chain1.len() implies #[trigger] chain1[i] < k + 1 by {
        if i < st.chain.len() {
            assert(s1[last][i] < k);
        }
    }
    assert forall|p: int, i: int| 0 <= p < s2.len() && 0 <= i < s2[p].len() implies #[trigger] s2[p][i] < k + 1 by {
        if p < last {
            assert(s1[p][i] < k);
        } else if p == last {
            assert(lobe[i] == chain1[i + mark]);
        } else {
            assert(st2.chain[i] == chain1[i]);
        }
    }
    // position map into the pre-state (with chain1 in place of the chain)
    let s1b = st.pieces.push(chain1);
    assert forall|p: int, i: int| 0 <= p < s2.len() && 0 <= i < s2[p].len() implies {
        let (pp, ii) = if p < last { (p, i) } else if p == last { (last, i + mark) } else { (last, i) };
        &&& 0 <= ii < s1b[pp].len()
        &&& #[trigger] s2[p][i] == s1b[pp][ii]
    } by {
        if p == last {
            assert(lobe[i] == chain1[i + mark]);
        } else if p == last + 1 {
            assert(st2.chain[i] == chain1[i]);
        }
    }
    // s1b is distinct
    assert forall|p: int, i: int, q: int, j: int|
        0 <= p < s1b.len() && 0 <= i < s1b[p].len() && 0 <= q < s1b.len() && 0 <= j < s1b[q].len()
            && #[trigger] s1b[p][i] == #[trigger] s1b[q][j] implies p == q && i == j by {
        let pn = p == last && i == st.chain.len();
        let qn = q == last && j == st.chain.len();
        if !pn && !qn {
            assert(s1[p][i] == s1b[p][i]);
            assert(s1[q][j] == s1b[q][j]);
        } else if pn && !qn {
            assert(s1[q][j] < k);
            assert(s1[q][j] == s1b[q][j]);
        } else if !pn && qn {
            assert(s1[p][i] < k);
            assert(s1[p][i] == s1b[p][i]);
        }
    }
    assert(all_distinct(s2)) by {
        assert forall|p: int, i: int, q: int, j: int|
            0 <= p < s2.len() && 0 <= i < s2[p].len() && 0 <= q < s2.len() && 0 <= j < s2[q].len()
                && #[trigger] s2[p][i] == #[trigger] s2[q][j] implies p == q && i == j by {
            let (pp, ii) = if p < last { (p, i) } else if p == last { (last, i + mark) } else { (last, i) };
            let (qq, jj) = if q < last { (q, j) } else if q == last { (last, j + mark) } else { (last, j) };
            assert(s2[p][i] == s1b[pp][ii]);
            assert(s2[q][j] == s1b[qq][jj]);
            assert(s1b[pp][ii] == s1b[qq][jj]);
        }
    }
    assert forall|x: int| 0 <= x < k + 1 implies occurs(s2, x) by {
        if x == k {
            assert(lobe[lobe.len() - 1] == chain1[chain1.len() - 1]);
            assert(s2[last][lobe.len() - 1] == x);
        } else {
            assert(occurs(s1, x));
            let (p, i) = choose|p: int, i: int| 0 <= p < s1.len() && 0 <= i < s1[p].len() && #[trigger] s1[p][i] == x;
            if p < last {
                assert(s2[p][i] == x);
            } else if i >= mark {
                assert(lobe[i - mark] == chain1[i]);
                assert(s2[last][i - mark] == x);
            } else {
                assert(st2.chain[i] == chain1[i]);
                assert(s2[last + 1][i] == x);
            }
        }
    }
    // the new lobe returns to crossing c
    assert(returns_to_crossing(ec, lobe)) by {
        assert(lobe.last() == k as usize);
        assert(chain1[mark - 1] == st.chain[mark - 1]);
        assert(chain1[mark - 1] < chain1[mark]);
        assert(lobe[0] == chain1[mark]);
        let a = st.chain[mark - 1] as int;
        assert(ec[a] == Some(c as usize));
        assert(ec[k] == Some(c as usize));
    }
    assert forall|p: int| 0 <= p < st2.pieces.len() implies returns_to_crossing(ec, #[trigger] st2.pieces[p]) by {
        if p < last {
            assert(st2.pieces[p] == st.pieces[p]);
        }
    }
    // surviving open crossings lie strictly below the mark
    assert forall|c2: int| 0 <= c2 < st2.open.len() && #[trigger] st2.open[c2] is Some implies {
        let m = st2.open[c2]->0 as int;
        &&& 1 <= m <= st2.chain.len()
        &&& ec[st2.chain[m - 1] as int] == Some(c2 as usize)
    } by {
        assert(st2.open[c2] == st.open[c2]);
        assert(c2 != c);
        let m = st.open[c2]->0 as int;
        assert(m < mark);
        assert(st2.chain[m - 1] == st.chain[m - 1]);
    }
}

proof fn lemma_run_inv(ec: Seq<Option<usize>>, n: nat, k: nat)
    requires
        k <= ec.len() <= usize::MAX,
        crossings_in_range(ec, n),
    ensures
        run_inv(ec, n, k as int, lobe_run(ec, n, k)),
    decreases k,
{
    if k == 0 {
        let st = lobe_run(ec, n, 0);
        assert(slots(st) =~= seq![Seq::<usize>::empty()]);
    } else {
        lemma_run_inv(ec, n, (k - 1) as nat);
        let st = lobe_run(ec, n, (k - 1) as nat);
        let kk = (k - 1) as int;
        if ec[kk] is Some && st.open[ec[kk]->0 as int] is Some {
            lemma_step_close(ec, n, kk, st);
        } else {
            lemma_step_keep(ec, n, kk, st);
        }
    }
}

/// The pieces partition the arcs: every arc of the subpath lands in exactly
/// one piece, each piece is non-empty, and each lists its arcs in path
/// order.
pub proof fn lemma_pieces_partition_arcs(ec: Seq<Option<usize>>, n: nat)
    requires
        ec.len() <= usize::MAX,
        crossings_in_range(ec, n),
    ensures
        ({
            let r = spec_assemble(ec, n);
            &&& forall|p: int| 0 <= p < r.len() ==> #[trigger] r[p].len() > 0
            &&& all_increasing(r)
            &&& bounded(r, ec.len() as int)
            &&& all_distinct(r)
            &&& covers(r, ec.len() as int)
        }),
{
    lemma_run_inv(ec, n, ec.len());
    let st = lobe_run(ec, n, ec.len());
    let s = slots(st);
    let r = spec_assemble(ec, n);
    if st.chain.len() > 0 {
        assert(r == s);
        assert forall|p: int| 0 <= p < r.len() implies #[trigger] r[p].len() > 0 by {
            if p < st.pieces.len() {
                assert(returns_to_crossing(ec, st.pieces[p]));
            }
        }
    } else {
        assert(r == st.pieces);
        assert forall|p: int| 0 <= p < r.len() implies #[trigger] r[p].len() > 0 by {
            assert(returns_to_crossing(ec, st.pieces[p]));
        }
        assert forall|p: int| 0 <= p < r.len() implies increasing(#[trigger] r[p]) by {
            assert(r[p] == s[p]);
            assert(increasing(s[p]));
        }
        assert forall|p: int, i: int| 0 <= p < r.len() && 0 <= i < r[p].len() implies #[trigger] r[p][i] < ec.len() by {
            assert(r[p][i] == s[p][i]);
        }
        assert forall|p: int, i: int, q: int, j: int|
            0 <= p < r.len() && 0 <= i < r[p].len() && 0 <= q < r.len() && 0 <= j < r[q].len()
                && #[trigger] r[p][i] == #[trigger] r[q][j] implies p == q && i == j by {
            assert(r[p][i] == s[p][i]);
            assert(r[q][j] == s[q][j]);
        }
        assert forall|x: int| 0 <= x < ec.len() implies occurs(r, x) by {
            assert(occurs(s, x));
            let (p, i) = choose|p: int, i: int| 0 <= p < s.len() && 0 <= i < s[p].len() && #[trigger] s[p][i] == x;
            assert(p < r.len());
            assert(r[p][i] == x);
        }
    }
}

/// Every lobe is closed: it ends at a crossing, and the arc just before it
/// in the walk ends at that same crossing, so the lobe runs from the
/// crossing back to it. The leftover strand, if any, is the last piece.
pub proof fn lemma_lobes_return_to_their_crossing(ec: Seq<Option<usize>>, n: nat)
    requires
        ec.len() <= usize::MAX,
        crossings_in_range(ec, n),
    ensures
        spec_lobe_count(ec, n) <= spec_assemble(ec, n).len() <= spec_lobe_count(ec, n) + 1,
        forall|p: int| 0 <= p < spec_lobe_count(ec, n) ==> returns_to_crossing(ec, #[trigger] spec_assemble(ec, n)[p]),
{
    lemma_run_inv(ec, n, ec.len());
    let st = lobe_run(ec, n, ec.len());
    assert forall|p: int| 0 <= p < spec_lobe_count(ec, n) implies returns_to_crossing(ec, #[trigger] spec_assemble(ec, n)[p]) by {
        assert(spec_assemble(ec, n)[p] == st.pieces[p]);
    }
}


/// Whether a piece of the decomposition is closed. Its endpoints coincide
/// when it is a lobe; the trailing strand (the last piece, when the last
/// arc runs to the subpath's end rather than to a crossing) is closed
/// exactly when the subpath was.
pub fn piece_closed(is_last_piece: bool, last_arc_open_ended: bool, subpath_closed: bool) -> (r: bool)
    ensures
        r == (if is_last_piece && last_arc_open_ended { subpath_closed } else { true }),
{
    if is_last_piece && last_arc_open_ended {
        subpath_closed
    } else {
        true
    }
}

proof fn lemma_untouched_crossing_closed(ec: Seq<Option<usize>>, n: nat, c: usize, k: nat)
    requires
        k <= ec.len() <= usize::MAX,
        crossings_in_range(ec, n),
        c < n,
        forall|i: int| 0 <= i < k ==> ec[i] != Some(c),
    ensures
        lobe_run(ec, n, k).open[c as int] is None,
    decreases k,
{
    if k > 0 {
        let kk = (k - 1) as int;
        lemma_untouched_crossing_closed(ec, n, c, (k - 1) as nat);
        lemma_run_inv(ec, n, (k - 1) as nat);
        let st = lobe_run(ec, n, (k - 1) as nat);
        assert(lobe_run(ec, n, k) == lobe_step(st, kk as usize, ec[kk]));
        if ec[kk] is Some {
            assert(ec[kk]->0 < n);
        }
    }
}

proof fn lemma_lobes_persist(ec: Seq<Option<usize>>, n: nat, k1: nat, k2: nat)
    requires
        k1 <= k2 <= ec.len(),
    ensures
        lobe_run(ec, n, k1).pieces.len() <= lobe_run(ec, n, k2).pieces.len(),
        forall|p: int| 0 <= p < lobe_run(ec, n, k1).pieces.len() ==> #[trigger] lobe_run(ec, n, k2).pieces[p]
            == lobe_run(ec, n, k1).pieces[p],
    decreases k2,
{
    if k2 > k1 {
        lemma_lobes_persist(ec, n, k1, (k2 - 1) as nat);
        let st = lobe_run(ec, n, (k2 - 1) as nat);
        assert(lobe_run(ec, n, k2) == lobe_step(st, (k2 - 1) as usize, ec[k2 - 1]));
    }
}

/// A crossing reached for the first time is always opened, whatever lobes
/// were found before: when arc `b` ends at the same crossing as the arc
/// just before it, and that crossing was never reached earlier, the small
/// loop that arc `b` alone makes is one of the lobes.
pub proof fn lemma_first_return_closes_lobe(ec: Seq<Option<usize>>, n: nat, b: int)
    requires
        ec.len() <= usize::MAX,
        crossings_in_range(ec, n),
        1 <= b < ec.len(),
        ec[b - 1] is Some,
        ec[b] == ec[b - 1],
        forall|i: int| 0 <= i < b - 1 ==> ec[i] != ec[b],
    ensures
        exists|p: int| 0 <= p < spec_lobe_count(ec, n) && #[trigger] spec_assemble(ec, n)[p] == seq![b as usize],
{
    let c = ec[b - 1]->0;
    assert(c < n);
    lemma_untouched_crossing_closed(ec, n, c, (b - 1) as nat);
    lemma_run_inv(ec, n, (b - 1) as nat);
    lemma_run_inv(ec, n, b as nat);
    let st0 = lobe_run(ec, n, (b - 1) as nat);
    let st1 = lobe_run(ec, n, b as nat);
    let st2 = lobe_run(ec, n, (b + 1) as nat);
    assert(st1 == lobe_step(st0, (b - 1) as usize, ec[b - 1]));
    assert(st1.open[c as int] == Some(st1.chain.len() as usize));
    assert(st2 == lobe_step(st1, b as usize, ec[b]));
    let m = st1.chain.len() as int;
    let chain = st1.chain.push(b as usize);
    assert(chain.subrange(m, chain.len() as int) =~= seq![b as usize]);
    let p = st1.pieces.len() as int;
    assert(st2.pieces[p] == seq![b as usize]);
    lemma_lobes_persist(ec, n, (b + 1) as nat, ec.len());
    let fin = lobe_run(ec, n, ec.len());
    assert(fin.pieces[p] == seq![b as usize]);
    assert(spec_assemble(ec, n)[p] == seq![b as usize]);
}

/// One step of the walk, stated on the arcs: an arc ending at a crossing
/// that is not open opens it (and closes nothing); an arc ending at an open
/// crossing closes a lobe that ends with that arc.
pub proof fn lemma_crossing_opens_then_closes(ec: Seq<Option<usize>>, n: nat, k: int)
    requires
        ec.len() <= usize::MAX,
        crossings_in_range(ec, n),
        0 <= k < ec.len(),
        ec[k] is Some,
    ensures
        ({
            let c = ec[k]->0 as int;
            let before = lobe_run(ec, n, k as nat);
            let after = lobe_run(ec, n, (k + 1) as nat);
            &&& before.open[c] is None ==> after.open[c] == Some((before.chain.len() + 1) as usize)
                && after.pieces == before.pieces && after.chain == before.chain.push(k as usize)
            &&& before.open[c] is Some ==> after.pieces.len() == before.pieces.len() + 1
                && after.pieces.last().len() > 0 && after.pieces.last().last() == k as usize
                && after.open[c] is None
        }),
{
    lemma_run_inv(ec, n, k as nat);
    let c = ec[k]->0 as int;
    assert(c < n);
    let before = lobe_run(ec, n, k as nat);
    assert(lobe_run(ec, n, (k + 1) as nat) == lobe_step(before, k as usize, ec[k]));
    if before.open[c] is Some {
        let mark = before.open[c]->0 as int;
        assert(open_marks_valid(ec, before));
        assert(mark <= before.chain.len());
        let chain = before.chain.push(k as usize);
        let lobe = chain.subrange(mark, chain.len() as int);
        assert(lobe.last() == k as usize);
    }
}

} // verus!
