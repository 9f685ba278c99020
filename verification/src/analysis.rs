//! The structure the posterior computation runs on: address offsets,
//! occlusion peers, control-flow predecessors and the forward propagation of
//! reaching hints.
use crate::hints::HintKey;
use crate::hints::HintSet;
use crate::superset::Superset;
use crate::superset::MAX_X86_INSN_LEN;
use std::collections::HashMap;
use vstd::prelude::*;

verus! {

/// The offset of `addr` in `s`, if it lies in the buffer.
pub open spec fn offset_spec(s: &Superset, addr: int) -> Option<int> {
    if s.in_range(addr) {
        Some(addr - s.base_addr)
    } else {
        None
    }
}

/// Returns the offset of an address in the superset's buffer.
pub fn offset_of(superset: &Superset, addr: u64) -> (r: Option<usize>)
    ensures
        match r {
            Some(o) => offset_spec(superset, addr as int) == Some(o as int),
            None => offset_spec(superset, addr as int) is None,
        },
{
    if addr < superset.base_addr {
        return None;
    }
    let offset = addr - superset.base_addr;
    if offset >= superset.instructions.len() as u64 {
        return None;
    }
    Some(offset as usize)
}

/// The address `a` occludes the instruction at `addr`, which ends at
/// `i_end`: another decoded instruction starts at `a` and the two overlap.
pub open spec fn occludes(s: &Superset, addr: u64, i_end: int, a: int) -> bool {
    &&& a != addr
    &&& s.insn_at(a) matches Some(j)
    &&& a < i_end
    &&& addr < a + j.size
}

/// The addresses in `[lo, hi)` that occlude the instruction at `addr`, in
/// increasing order.
pub open spec fn occluders_in(s: &Superset, addr: u64, i_end: int, lo: int, hi: int) -> Seq<u64>
    decreases hi - lo,
{
    if hi <= lo {
        seq![]
    } else {
        occluders_in(s, addr, i_end, lo, hi - 1) + if occludes(s, addr, i_end, hi - 1) {
            seq![(hi - 1) as u64]
        } else {
            seq![]
        }
    }
}

/// The addresses whose decoded instruction overlaps the one at `addr`,
/// scanned from 14 bytes before it to 14 bytes past its end.
pub open spec fn occluding(s: &Superset, addr: u64) -> Seq<u64> {
    match s.insn_at(addr as int) {
        None => seq![],
        Some(i) => {
            let i_end = addr + i.size;
            let lo = if addr >= MAX_X86_INSN_LEN - 1 {
                addr - (MAX_X86_INSN_LEN - 1)
            } else {
                0
            };
            occluders_in(s, addr, i_end, lo, i_end + MAX_X86_INSN_LEN - 1)
        },
    }
}

/// Returns the addresses whose decoded instruction overlaps the one at
/// `addr`, in increasing order.
pub fn occluding_addrs(superset: &Superset, addr: u64) -> (r: Vec<u64>)
    requires
        superset.wf(),
        superset.ends_below_top(),
        superset.insn_at(addr as int) matches Some(i) ==> addr + i.size + MAX_X86_INSN_LEN
            <= u64::MAX,
    ensures
        r@ == occluding(superset, addr),
{
    let i = match superset.at(addr) {
        Some(i) => i,
        None => return Vec::new(),
    };
    proof {
        assert(superset.instructions@[addr - superset.base_addr] == Some(*i));
    }
    let i_end = addr + i.size as u64;
    let max_size: u64 = MAX_X86_INSN_LEN;
    let mut out: Vec<u64> = Vec::new();
    let scan_start = addr.saturating_sub(max_size - 1);
    let scan_end = i_end + max_size - 1;
    let mut a = scan_start;
    while a < scan_end
        invariant
            superset.wf(),
            superset.ends_below_top(),
            scan_start <= a <= scan_end,
            scan_end == i_end + MAX_X86_INSN_LEN - 1,
            superset.insn_at(addr as int) == Some(*i),
            i_end == addr + i.size,
            out@ == occluders_in(superset, addr, i_end as int, scan_start as int, a as int),
        decreases scan_end - a,
    {
        if a != addr {
            if let Some(j) = superset.at(a) {
                proof {
                    assert(superset.instructions@[a - superset.base_addr] == Some(*j));
                    assert(j.address + j.size <= u64::MAX);
                }
                let j_end = a + j.size as u64;
                if a < i_end && addr < j_end {
                    out.push(a);
                }
            }
        }
        assert(out@ =~= occluders_in(superset, addr, i_end as int, scan_start as int, a + 1));
        a = a + 1;
    }
    out
}

proof fn lemma_occluders_in_contains(s: &Superset, addr: u64, i_end: int, lo: int, hi: int, a: u64)
    requires
        0 <= lo,
        s.wf(),
    ensures
        occluders_in(s, addr, i_end, lo, hi).contains(a) <==> lo <= a < hi && occludes(s, addr, i_end, a as int),
    decreases hi - lo,
{
    if hi > lo {
        lemma_occluders_in_contains(s, addr, i_end, lo, hi - 1, a);
        let head = occluders_in(s, addr, i_end, lo, hi - 1);
        let tail: Seq<u64> = if occludes(s, addr, i_end, hi - 1) { seq![(hi - 1) as u64] } else { seq![] };
        assert(occluders_in(s, addr, i_end, lo, hi) == head + tail);
        if occludes(s, addr, i_end, hi - 1) {
            assert(s.in_range(hi - 1));
            assert((hi - 1) as u64 == hi - 1);
        }
        if (head + tail).contains(a) {
            let i = choose|i: int| 0 <= i < (head + tail).len() && (head + tail)[i] == a;
            if i < head.len() {
                assert(head[i] == a);
            }
        }
        if head.contains(a) {
            let i = choose|i: int| 0 <= i < head.len() && head[i] == a;
            assert((head + tail)[i] == a);
        }
        if a == hi - 1 && occludes(s, addr, i_end, a as int) {
            assert((head + tail)[head.len() as int] == a);
        }
    }
}

/// The occlusion peers of the instruction at `addr` are exactly the other
/// decoded instructions that overlap it, `[a, a + size)` against
/// `[addr, addr + size)`.
pub proof fn lemma_occluding_is_overlap(s: &Superset, addr: u64, a: u64)
    requires
        s.wf(),
    ensures
        occluding(s, addr).contains(a) <==> (a != addr && (s.insn_at(addr as int) matches Some(i) && (
        s.insn_at(a as int) matches Some(j) && a < addr + i.size && addr < a + j.size))),
{
    if let Some(i) = s.insn_at(addr as int) {
        let i_end = addr + i.size;
        let lo = if addr >= MAX_X86_INSN_LEN - 1 { addr - (MAX_X86_INSN_LEN - 1) } else { 0 };
        lemma_occluders_in_contains(s, addr, i_end, lo, i_end + MAX_X86_INSN_LEN - 1, a);
    }
}

/// Occlusion is symmetric: an instruction is among the occlusion peers of
/// another exactly when the other is among its own.
pub proof fn lemma_occlusion_symmetric(s: &Superset, a: u64, b: u64)
    requires
        s.wf(),
    ensures
        occluding(s, a).contains(b) <==> occluding(s, b).contains(a),
{
    lemma_occluding_is_overlap(s, a, b);
    lemma_occluding_is_overlap(s, b, a);
}

/// One copy of `val` for each entry of `succs` equal to `target`.
pub open spec fn repeat_for(succs: Seq<u64>, target: u64, val: u64) -> Seq<u64>
    decreases succs.len(),
{
    if succs.len() == 0 {
        seq![]
    } else {
        repeat_for(succs.drop_last(), target, val) + if succs.last() == target {
            seq![val]
        } else {
            seq![]
        }
    }
}

/// The control-flow predecessors of address `t` among the first `k` offsets:
/// each predecessor address once for each edge it has to `t`, in increasing
/// order.
pub open spec fn preds_upto(s: &Superset, t: u64, k: int) -> Seq<u64>
    decreases k,
{
    if k <= 0 {
        seq![]
    } else {
        let p = (s.base_addr + k - 1) as u64;
        preds_upto(s, t, k - 1) + repeat_for(s.successors(p), t, p)
    }
}

/// Builds the map from each control-flow successor address, in the buffer
/// or not, to the addresses of its predecessors.
pub fn build_predecessor_map(superset: &Superset) -> (r: HashMap<u64, Vec<u64>>)
    requires
        superset.wf(),
        superset.ends_below_top(),
    ensures
        forall|t: u64| #[trigger] r@.contains_key(t) <==> preds_upto(superset, t, superset.len()).len() > 0,
        forall|t: u64| #[trigger] r@.contains_key(t) ==> r@[t]@ == preds_upto(superset, t, superset.len()),
        forall|t: u64, p: u64|
            #![trigger r@[t]@.contains(p)]
            #![trigger superset.successors(p).contains(t)]
            (r@.contains_key(t) && r@[t]@.contains(p)) <==> (superset.in_range(p as int)
                && superset.successors(p).contains(t)),
        forall|t: u64, i: int, j: int|
            r@.contains_key(t) && 0 <= i < j < r@[t]@.len() ==> #[trigger] r@[t]@[i] <= #[trigger] r@[t]@[j],
{
    let n = superset.instructions.len();
    let mut map: HashMap<u64, Vec<u64>> = HashMap::new();
    for p in 0..n
        invariant
            n == superset.len(),
            superset.wf(),
            superset.ends_below_top(),
            forall|t: u64| #[trigger] map@.contains_key(t) <==> preds_upto(superset, t, p as int).len() > 0,
            forall|t: u64| #[trigger] map@.contains_key(t) ==> map@[t]@ == preds_upto(superset, t, p as int),
    {
        let addr = superset.base_addr + p as u64;
        proof {
            if let Some(i) = superset.insn_at(addr as int) {
                assert(superset.instructions@[p as int] == Some(i));
            }
        }
        let succs = superset.successors_of(addr);
        for j in 0..succs.len()
            invariant
                n == superset.len(),
                superset.wf(),
                superset.ends_below_top(),
                addr == superset.base_addr + p,
                succs@ == superset.successors(addr),
                forall|t: u64|
                    #[trigger] map@.contains_key(t) <==> (preds_upto(superset, t, p as int) + repeat_for(
                        succs@.take(j as int),
                        t,
                        addr,
                    )).len() > 0,
                forall|t: u64|
                    #[trigger] map@.contains_key(t) ==> map@[t]@ == preds_upto(superset, t, p as int)
                        + repeat_for(succs@.take(j as int), t, addr),
        {
            let succ = succs[j];
            let ghost prev = map@;
            assert(succs@.take(j + 1).drop_last() =~= succs@.take(j as int));
            let mut v = match map.remove(&succ) {
                Some(v) => v,
                None => Vec::new(),
            };
            proof {
                assert(map@ == prev.remove(succ));
                if prev.contains_key(succ) {
                    assert(v == prev[succ]);
                }
            }
            v.push(addr);
            map.insert(succ, v);
            assert forall|t: u64|
                #[trigger] map@.contains_key(t) == ((preds_upto(superset, t, p as int) + repeat_for(
                    succs@.take(j + 1),
                    t,
                    addr,
                )).len() > 0) && (map@.contains_key(t) ==> map@[t]@ == preds_upto(superset, t, p as int)
                    + repeat_for(succs@.take(j + 1), t, addr)) by {
                if t == succ {
                    assert(preds_upto(superset, t, p as int) + repeat_for(succs@.take(j + 1), t, addr)
                        =~= (preds_upto(superset, t, p as int) + repeat_for(succs@.take(j as int), t, addr)).push(addr));
                    if !prev.contains_key(t) {
                        assert((preds_upto(superset, t, p as int) + repeat_for(succs@.take(j as int), t, addr)).len() == 0);
                        assert(map@[t]@ =~= seq![addr]);
                    }
                } else {
                    assert(repeat_for(succs@.take(j + 1), t, addr) =~= repeat_for(succs@.take(j as int), t, addr));
                }
            }
        }
        assert(succs@.take(succs@.len() as int) =~= succs@);
        assert forall|t: u64| #[trigger] map@.contains_key(t) ==> map@[t]@ == preds_upto(superset, t, p + 1) by {}
        assert forall|t: u64| #[trigger] map@.contains_key(t) <==> preds_upto(superset, t, p + 1).len() > 0 by {}
    }
    proof {
        assert forall|t: u64, q: u64|
            #![trigger map@[t]@.contains(q)]
            #![trigger superset.successors(q).contains(t)]
            (map@.contains_key(t) && map@[t]@.contains(q)) <==> (superset.in_range(q as int)
                && superset.successors(q).contains(t)) by {
            lemma_preds_upto_contains(superset, t, n as int, q);
            if superset.in_range(q as int) && superset.successors(q).contains(t) {
                assert(preds_upto(superset, t, n as int).contains(q));
            }
        }
        assert forall|t: u64, i: int, j: int|
            map@.contains_key(t) && 0 <= i < j < map@[t]@.len() implies #[trigger] map@[t]@[i] <= #[trigger] map@[t]@[j] by {
            lemma_preds_upto_sorted(superset, t, n as int);
        }
    }
    map
}

proof fn lemma_repeat_for_contains(succs: Seq<u64>, target: u64, val: u64, x: u64)
    ensures
        repeat_for(succs, target, val).contains(x) <==> x == val && succs.contains(target),
    decreases succs.len(),
{
    if succs.len() > 0 {
        lemma_repeat_for_contains(succs.drop_last(), target, val, x);
        let head = repeat_for(succs.drop_last(), target, val);
        let tail: Seq<u64> = if succs.last() == target { seq![val] } else { seq![] };
        assert(repeat_for(succs, target, val) == head + tail);
        if (head + tail).contains(x) {
            let i = choose|i: int| 0 <= i < (head + tail).len() && (head + tail)[i] == x;
            if i < head.len() {
                assert(head[i] == x);
            } else {
                assert(succs[succs.len() - 1] == target);
            }
        }
        if x == val && succs.contains(target) {
            let i = choose|i: int| 0 <= i < succs.len() && succs[i] == target;
            if i < succs.len() - 1 {
                assert(succs.drop_last()[i] == target);
                let h = choose|h: int| 0 <= h < head.len() && head[h] == x;
                assert((head + tail)[h] == x);
            } else {
                assert((head + tail)[head.len() as int] == x);
            }
        }
        if succs.drop_last().contains(target) {
            let i = choose|i: int| 0 <= i < succs.drop_last().len() && succs.drop_last()[i] == target;
            assert(succs[i] == target);
        }
    }
}

proof fn lemma_preds_upto_contains(s: &Superset, t: u64, k: int, q: u64)
    requires
        0 <= k <= s.len(),
        s.wf(),
    ensures
        preds_upto(s, t, k).contains(q) <==> s.base_addr <= q < s.base_addr + k && s.successors(q).contains(t),
    decreases k,
{
    if k > 0 {
        lemma_preds_upto_contains(s, t, k - 1, q);
        let p = (s.base_addr + k - 1) as u64;
        let head = preds_upto(s, t, k - 1);
        let tail = repeat_for(s.successors(p), t, p);
        lemma_repeat_for_contains(s.successors(p), t, p, q);
        assert(preds_upto(s, t, k) == head + tail);
        if (head + tail).contains(q) {
            let i = choose|i: int| 0 <= i < (head + tail).len() && (head + tail)[i] == q;
            if i < head.len() {
                assert(head[i] == q);
            } else {
                assert(tail[i - head.len()] == q);
            }
        }
        if head.contains(q) {
            let i = choose|i: int| 0 <= i < head.len() && head[i] == q;
            assert((head + tail)[i] == q);
        }
        if tail.contains(q) {
            let i = choose|i: int| 0 <= i < tail.len() && tail[i] == q;
            assert((head + tail)[head.len() + i] == q);
        }
    }
}

proof fn lemma_repeat_for_all(succs: Seq<u64>, target: u64, val: u64)
    ensures
        forall|i: int| 0 <= i < repeat_for(succs, target, val).len() ==> #[trigger] repeat_for(succs, target, val)[i] == val,
    decreases succs.len(),
{
    if succs.len() > 0 {
        lemma_repeat_for_all(succs.drop_last(), target, val);
        let head = repeat_for(succs.drop_last(), target, val);
        let tail: Seq<u64> = if succs.last() == target { seq![val] } else { seq![] };
        assert(repeat_for(succs, target, val) == head + tail);
        assert forall|i: int| 0 <= i < (head + tail).len() implies #[trigger] (head + tail)[i] == val by {
            if i < head.len() {
                assert(head[i] == val);
            }
        }
    }
}

/// The predecessors of `t` come in increasing order.
proof fn lemma_preds_upto_sorted(s: &Superset, t: u64, k: int)
    requires
        0 <= k <= s.len(),
        s.wf(),
    ensures
        forall|i: int, j: int| 0 <= i < j < preds_upto(s, t, k).len() ==> #[trigger] preds_upto(s, t, k)[i]
            <= #[trigger] preds_upto(s, t, k)[j],
    decreases k,
{
    if k > 0 {
        lemma_preds_upto_sorted(s, t, k - 1);
        let p = (s.base_addr + k - 1) as u64;
        let head = preds_upto(s, t, k - 1);
        let tail = repeat_for(s.successors(p), t, p);
        lemma_repeat_for_all(s.successors(p), t, p);
        assert(preds_upto(s, t, k) == head + tail);
        assert forall|i: int, j: int| 0 <= i < j < (head + tail).len() implies #[trigger] (head + tail)[i]
            <= #[trigger] (head + tail)[j] by {
            if j < head.len() {
                assert(head[i] <= head[j]);
            } else if i < head.len() {
                lemma_preds_upto_contains(s, t, k - 1, head[i]);
                assert(head.contains(head[i]));
                assert(tail[j - head.len()] == p);
            } else {
                assert(tail[i - head.len()] == p);
                assert(tail[j - head.len()] == p);
            }
        }
    }
}

/// The hints fired at address `addr`.
pub open spec fn fired_at(h: &HintSet, addr: int) -> Set<HintKey> {
    h@.filter(|k: HintKey| k.source_addr == addr)
}

/// Merges `here` into the reaching hints of the successor address `succ`,
/// unless it lies outside the buffer or is definitely data.
pub open spec fn merge_into_succ(
    s: &Superset,
    data: Seq<bool>,
    st: Seq<Set<HintKey>>,
    here: Set<HintKey>,
    succ: u64,
) -> Seq<Set<HintKey>> {
    match offset_spec(s, succ as int) {
        Some(m) => if data[m] {
            st
        } else {
            st.update(m, st[m].union(here))
        },
        None => st,
    }
}

/// Merges `here` into the reaching hints of each of `succs`, in order.
pub open spec fn merge_into_succs(
    s: &Superset,
    data: Seq<bool>,
    st: Seq<Set<HintKey>>,
    here: Set<HintKey>,
    succs: Seq<u64>,
) -> Seq<Set<HintKey>>
    decreases succs.len(),
{
    if succs.len() == 0 {
        st
    } else {
        merge_into_succ(
            s,
            data,
            merge_into_succs(s, data, st, here, succs.drop_last()),
            here,
            succs.last(),
        )
    }
}

/// One step of the forward pass, at offset `o`: unless the byte is
/// definitely data, the hints fired there join its reaching hints, which then
/// join those of its control-flow successors.
pub open spec fn forward_step(
    s: &Superset,
    h: &HintSet,
    data: Seq<bool>,
    st: Seq<Set<HintKey>>,
    o: int,
) -> Seq<Set<HintKey>> {
    if data[o] {
        st
    } else {
        let addr = s.base_addr + o;
        let here = st[o].union(fired_at(h, addr));
        merge_into_succs(s, data, st.update(o, here), here, s.successors(addr as u64))
    }
}

/// The forward pass over the first `k` offsets, in increasing order.
pub open spec fn forward_pass(
    s: &Superset,
    h: &HintSet,
    data: Seq<bool>,
    st: Seq<Set<HintKey>>,
    k: int,
) -> Seq<Set<HintKey>>
    decreases k,
{
    if k <= 0 {
        st
    } else {
        forward_step(s, h, data, forward_pass(s, h, data, st, k - 1), k - 1)
    }
}

/// Reaching hints `st` are closed under forward propagation: every byte that
/// is not definitely data holds the hints fired at it, and passes its
/// reaching hints on to each control-flow successor that is not definitely
/// data.
pub open spec fn closed_under_propagation(
    s: &Superset,
    h: &HintSet,
    data: Seq<bool>,
    st: Seq<Set<HintKey>>,
) -> bool {
    forall|o: int|
        0 <= o < s.len() && !data[o] ==> {
            &&& fired_at(h, s.base_addr + o).subset_of(#[trigger] st[o])
            &&& forall|succ: u64|
                #[trigger] s.successors((s.base_addr + o) as u64).contains(succ) ==> match offset_spec(
                    s,
                    succ as int,
                ) {
                    Some(m) => !data[m] ==> st[o].subset_of(st[m]),
                    None => true,
                }
        }
}

proof fn lemma_merge_into_succs(
    s: &Superset,
    data: Seq<bool>,
    st: Seq<Set<HintKey>>,
    here: Set<HintKey>,
    succs: Seq<u64>,
)
    requires
        data.len() == st.len() == s.len(),
    ensures
        merge_into_succs(s, data, st, here, succs).len() == st.len(),
        forall|m: int|
            0 <= m < st.len() ==> st[m].subset_of(#[trigger] merge_into_succs(s, data, st, here, succs)[m]),
        forall|m: int|
            0 <= m < st.len() ==> (#[trigger] merge_into_succs(s, data, st, here, succs)[m]).subset_of(
                st[m].union(here),
            ),
        forall|succ: u64|
            #[trigger] succs.contains(succ) ==> match offset_spec(s, succ as int) {
                Some(m) => !data[m] ==> here.subset_of(merge_into_succs(s, data, st, here, succs)[m]),
                None => true,
            },
    decreases succs.len(),
{
    if succs.len() > 0 {
        let rest = succs.drop_last();
        lemma_merge_into_succs(s, data, st, here, rest);
        let mid = merge_into_succs(s, data, st, here, rest);
        assert forall|succ: u64| #[trigger] succs.contains(succ) implies match offset_spec(s, succ as int) {
            Some(m) => !data[m] ==> here.subset_of(merge_into_succs(s, data, st, here, succs)[m]),
            None => true,
        } by {
            let i = choose|i: int| 0 <= i < succs.len() && succs[i] == succ;
            if i < succs.len() - 1 {
                assert(rest[i] == succ);
                assert(rest.contains(succ));
            }
        }
    }
}

proof fn lemma_forward_step(s: &Superset, h: &HintSet, data: Seq<bool>, st: Seq<Set<HintKey>>, o: int)
    requires
        s.wf(),
        0 <= o < s.len(),
        data.len() == st.len() == s.len(),
    ensures
        forward_step(s, h, data, st, o).len() == st.len(),
        forall|m: int| 0 <= m < st.len() ==> st[m].subset_of(#[trigger] forward_step(s, h, data, st, o)[m]),
        !data[o] ==> fired_at(h, s.base_addr + o).subset_of(forward_step(s, h, data, st, o)[o]),
        !data[o] ==> forall|succ: u64|
            #[trigger] s.successors((s.base_addr + o) as u64).contains(succ) ==> match offset_spec(s, succ as int) {
                Some(m) => !data[m] ==> st[o].subset_of(forward_step(s, h, data, st, o)[m]),
                None => true,
            },
        forall|m: int|
            0 <= m < st.len() && data[m] ==> #[trigger] forward_step(s, h, data, st, o)[m] == st[m],
        forall|m: int|
            0 <= m < st.len() ==> (#[trigger] forward_step(s, h, data, st, o)[m]).subset_of(
                st[m].union(st[o]).union(fired_at(h, s.base_addr + o)),
            ),
{
    if !data[o] {
        let addr = s.base_addr + o;
        let here = st[o].union(fired_at(h, addr));
        let up = st.update(o, here);
        lemma_merge_into_succs(s, data, up, here, s.successors(addr as u64));
        lemma_merge_into_succs_keeps_data(s, data, up, here, s.successors(addr as u64));
        assert forall|m: int| 0 <= m < st.len() implies st[m].subset_of(#[trigger] forward_step(s, h, data, st, o)[m]) by {
            assert(st[m].subset_of(up[m]));
        }
        assert forall|m: int| 0 <= m < st.len() implies (#[trigger] forward_step(s, h, data, st, o)[m]).subset_of(
            st[m].union(st[o]).union(fired_at(h, s.base_addr + o))) by {
            assert(up[m].subset_of(st[m].union(here)));
        }
    }
}

proof fn lemma_merge_into_succs_keeps_data(
    s: &Superset,
    data: Seq<bool>,
    st: Seq<Set<HintKey>>,
    here: Set<HintKey>,
    succs: Seq<u64>,
)
    requires
        data.len() == st.len() == s.len(),
    ensures
        forall|m: int|
            0 <= m < st.len() && data[m] ==> #[trigger] merge_into_succs(s, data, st, here, succs)[m] == st[m],
    decreases succs.len(),
{
    if succs.len() > 0 {
        lemma_merge_into_succs_keeps_data(s, data, st, here, succs.drop_last());
        lemma_merge_into_succs(s, data, st, here, succs.drop_last());
    }
}

proof fn lemma_forward_pass_grows(s: &Superset, h: &HintSet, data: Seq<bool>, st: Seq<Set<HintKey>>, j: int, k: int)
    requires
        s.wf(),
        0 <= j <= k <= s.len(),
        data.len() == st.len() == s.len(),
    ensures
        forward_pass(s, h, data, st, k).len() == st.len(),
        forall|m: int|
            0 <= m < st.len() ==> forward_pass(s, h, data, st, j)[m].subset_of(
                #[trigger] forward_pass(s, h, data, st, k)[m],
            ),
    decreases k,
{
    if k > 0 {
        lemma_forward_pass_grows(s, h, data, st, 0, k - 1);
        lemma_forward_step(s, h, data, forward_pass(s, h, data, st, k - 1), k - 1);
        if j == k {
        } else {
            lemma_forward_pass_grows(s, h, data, st, j, k - 1);
            assert forall|m: int| 0 <= m < st.len() implies forward_pass(s, h, data, st, j)[m].subset_of(
                #[trigger] forward_pass(s, h, data, st, k)[m]) by {
                assert(forward_pass(s, h, data, st, j)[m].subset_of(forward_pass(s, h, data, st, k - 1)[m]));
            }
        }
    }
}

/// After a forward pass every byte that is not definitely data holds each
/// hint fired at its own address, whatever its label.
pub proof fn lemma_forward_pass_holds_own_hints(
    s: &Superset,
    h: &HintSet,
    data: Seq<bool>,
    st: Seq<Set<HintKey>>,
    o: int,
    k: HintKey,
)
    requires
        s.wf(),
        data.len() == st.len() == s.len(),
        0 <= o < s.len(),
        !data[o],
        h@.contains(k),
        k.source_addr == s.base_addr + o,
    ensures
        forward_pass(s, h, data, st, s.len())[o].contains(k),
{
    let before = forward_pass(s, h, data, st, o);
    lemma_forward_pass_grows(s, h, data, st, 0, o);
    lemma_forward_step(s, h, data, before, o);
    assert(fired_at(h, s.base_addr + o).contains(k));
    assert(forward_pass(s, h, data, st, o + 1)[o].contains(k));
    lemma_forward_pass_grows(s, h, data, st, o + 1, s.len());
}

/// A forward pass leaves the reaching hints unchanged exactly when they are
/// closed under propagation: the pass stops at its fixed points and only
/// there.
pub proof fn lemma_forward_pass_fixed_point(s: &Superset, h: &HintSet, data: Seq<bool>, st: Seq<Set<HintKey>>)
    requires
        s.wf(),
        data.len() == s.len(),
        st.len() == s.len(),
    ensures
        forward_pass(s, h, data, st, s.len()) == st <==> closed_under_propagation(s, h, data, st),
{
    let n = s.len();
    if forward_pass(s, h, data, st, n) == st {
        assert forall|o: int| 0 <= o < n && !data[o] implies {
            &&& fired_at(h, s.base_addr + o).subset_of(#[trigger] st[o])
            &&& forall|succ: u64|
                #[trigger] s.successors((s.base_addr + o) as u64).contains(succ) ==> match offset_spec(
                    s,
                    succ as int,
                ) {
                    Some(m) => !data[m] ==> st[o].subset_of(st[m]),
                    None => true,
                }
        } by {
            lemma_forward_pass_grows(s, h, data, st, 0, o);
            lemma_forward_pass_grows(s, h, data, st, o, n);
            lemma_forward_pass_grows(s, h, data, st, o + 1, n);
            lemma_forward_pass_grows(s, h, data, st, 0, o + 1);
            let before = forward_pass(s, h, data, st, o);
            assert forall|m: int| 0 <= m < n implies #[trigger] before[m] == st[m] by {
                assert(st[m].subset_of(before[m]));
                assert(before[m].subset_of(forward_pass(s, h, data, st, n)[m]));
                assert(before[m] =~= st[m]);
            }
            assert(before =~= st);
            lemma_forward_step(s, h, data, st, o);
            let after = forward_pass(s, h, data, st, o + 1);
            assert(after == forward_step(s, h, data, st, o));
            assert forall|m: int| 0 <= m < n implies #[trigger] after[m] == st[m] by {
                assert(st[m].subset_of(after[m]));
                assert(after[m].subset_of(forward_pass(s, h, data, st, n)[m]));
                assert(after[m] =~= st[m]);
            }
        }
    }
    if closed_under_propagation(s, h, data, st) {
        lemma_closed_pass_unchanged(s, h, data, st, n);
    }
}

proof fn lemma_closed_merge_unchanged(
    s: &Superset,
    data: Seq<bool>,
    st: Seq<Set<HintKey>>,
    here: Set<HintKey>,
    succs: Seq<u64>,
)
    requires
        data.len() == st.len() == s.len(),
        forall|succ: u64|
            #[trigger] succs.contains(succ) ==> match offset_spec(s, succ as int) {
                Some(m) => !data[m] ==> here.subset_of(st[m]),
                None => true,
            },
    ensures
        merge_into_succs(s, data, st, here, succs) == st,
    decreases succs.len(),
{
    if succs.len() > 0 {
        let rest = succs.drop_last();
        assert forall|succ: u64| #[trigger] rest.contains(succ) implies match offset_spec(s, succ as int) {
            Some(m) => !data[m] ==> here.subset_of(st[m]),
            None => true,
        } by {
            let i = choose|i: int| 0 <= i < rest.len() && rest[i] == succ;
            assert(succs[i] == succ);
            assert(succs.contains(succ));
        }
        lemma_closed_merge_unchanged(s, data, st, here, rest);
        assert(succs.contains(succs.last()));
        match offset_spec(s, succs.last() as int) {
            Some(m) => {
                if !data[m] {
                    assert(st[m].union(here) =~= st[m]);
                    assert(st.update(m, st[m].union(here)) =~= st);
                }
            },
            None => {},
        }
    }
}

proof fn lemma_closed_pass_unchanged(s: &Superset, h: &HintSet, data: Seq<bool>, st: Seq<Set<HintKey>>, k: int)
    requires
        s.wf(),
        0 <= k <= s.len(),
        data.len() == s.len(),
        st.len() == s.len(),
        closed_under_propagation(s, h, data, st),
    ensures
        forward_pass(s, h, data, st, k) == st,
    decreases k,
{
    if k > 0 {
        lemma_closed_pass_unchanged(s, h, data, st, k - 1);
        let o = k - 1;
        if !data[o] {
            let addr = s.base_addr + o;
            let here = st[o].union(fired_at(h, addr));
            assert(fired_at(h, s.base_addr + o).subset_of(st[o]));
            assert(here =~= st[o]);
            assert(st.update(o, here) =~= st);
            lemma_closed_merge_unchanged(s, data, st, here, s.successors(addr as u64));
        }
    }
}

proof fn lemma_forward_step_keeps_data_pass(s: &Superset, h: &HintSet, data: Seq<bool>, st: Seq<Set<HintKey>>, k: int)
    requires
        s.wf(),
        0 <= k <= s.len(),
        data.len() == s.len(),
        st.len() == s.len(),
    ensures
        forall|m: int| 0 <= m < s.len() && data[m] ==> #[trigger] forward_pass(s, h, data, st, k)[m] == st[m],
    decreases k,
{
    if k > 0 {
        lemma_forward_step_keeps_data_pass(s, h, data, st, k - 1);
        lemma_forward_pass_grows(s, h, data, st, 0, k - 1);
        lemma_forward_step(s, h, data, forward_pass(s, h, data, st, k - 1), k - 1);
    }
}

/// `p` is a control-flow path through bytes of `s` that are not definitely
/// data: each address lies in the buffer and is not definitely data, and
/// each is a control-flow successor of the one before.
pub open spec fn data_free_path(s: &Superset, data: Seq<bool>, p: Seq<u64>) -> bool {
    &&& p.len() >= 1
    &&& forall|i: int|
        0 <= i < p.len() ==> (#[trigger] offset_spec(s, p[i] as int) matches Some(m) && !data[m])
    &&& forall|i: int| 0 <= i < p.len() - 1 ==> #[trigger] s.successors(p[i]).contains(p[i + 1])
}

/// Every hint reaching a byte was fired by `h`, and control flows from the
/// hint's source to the byte without passing through definitely-data bytes.
pub open spec fn reaching_sound(s: &Superset, h: &HintSet, data: Seq<bool>, st: Seq<Set<HintKey>>) -> bool {
    forall|m: int, k: HintKey|
        0 <= m < st.len() && #[trigger] st[m].contains(k) ==> h@.contains(k) && exists|p: Seq<u64>|
            #[trigger] data_free_path(s, data, p) && p[0] == k.source_addr && p.last() == s.base_addr + m
}

/// With no hint reaching any byte, the reaching hints are sound.
pub proof fn lemma_no_reaching_hints_sound(s: &Superset, h: &HintSet, data: Seq<bool>, st: Seq<Set<HintKey>>)
    requires
        forall|m: int| 0 <= m < st.len() ==> #[trigger] st[m] == Set::<HintKey>::empty(),
    ensures
        reaching_sound(s, h, data, st),
{
    assert forall|m: int, k: HintKey| 0 <= m < st.len() && #[trigger] st[m].contains(k) implies false by {
        assert(st[m] == Set::<HintKey>::empty());
    }
}

proof fn lemma_merge_into_succs_sound(
    s: &Superset,
    h: &HintSet,
    data: Seq<bool>,
    st: Seq<Set<HintKey>>,
    here: Set<HintKey>,
    from: u64,
    succs: Seq<u64>,
)
    requires
        s.wf(),
        data.len() == st.len() == s.len(),
        reaching_sound(s, h, data, st),
        forall|i: int| 0 <= i < succs.len() ==> #[trigger] s.successors(from).contains(succs[i]),
        forall|k: HintKey| #[trigger] here.contains(k) ==> h@.contains(k) && exists|p: Seq<u64>|
            #[trigger] data_free_path(s, data, p) && p[0] == k.source_addr && p.last() == from,
    ensures
        reaching_sound(s, h, data, merge_into_succs(s, data, st, here, succs)),
    decreases succs.len(),
{
    if succs.len() > 0 {
        let rest = succs.drop_last();
        lemma_merge_into_succs_sound(s, h, data, st, here, from, rest);
        lemma_merge_into_succs(s, data, st, here, rest);
        let mid = merge_into_succs(s, data, st, here, rest);
        let succ = succs.last();
        assert(s.successors(from).contains(succs[succs.len() - 1]));
        match offset_spec(s, succ as int) {
            Some(m) => {
                if !data[m] {
                    let next = mid.update(m, mid[m].union(here));
                    assert forall|m2: int, k: HintKey| 0 <= m2 < next.len() && #[trigger] next[m2].contains(k) implies h@.contains(k)
                        && exists|p: Seq<u64>| #[trigger] data_free_path(s, data, p) && p[0] == k.source_addr && p.last() == s.base_addr + m2 by {
                        if m2 == m && !mid[m].contains(k) {
                            let p = choose|p: Seq<u64>| #[trigger] data_free_path(s, data, p) && p[0] == k.source_addr && p.last() == from;
                            let p2 = p.push(succ);
                            assert forall|i: int| 0 <= i < p2.len() implies (#[trigger] offset_spec(s, p2[i] as int) matches Some(mm) && !data[mm]) by {
                                if i < p.len() {
                                    assert(p2[i] == p[i]);
                                }
                            }
                            assert forall|i: int| 0 <= i < p2.len() - 1 implies #[trigger] s.successors(p2[i]).contains(p2[i + 1]) by {
                                if i < p.len() - 1 {
                                    assert(p2[i] == p[i] && p2[i + 1] == p[i + 1]);
                                } else {
                                    assert(p2[i] == from);
                                }
                            }
                            assert(data_free_path(s, data, p2));
                            assert(p2.last() == s.base_addr + m2);
                        }
                    }
                }
            },
            None => {},
        }
    }
}

/// Forward propagation keeps reaching hints sound: a pass adds a hint to a
/// byte only if the hint was fired and control flows from its source to the
/// byte through bytes that are not definitely data.
pub proof fn lemma_forward_pass_sound(s: &Superset, h: &HintSet, data: Seq<bool>, st: Seq<Set<HintKey>>, k: int)
    requires
        s.wf(),
        h.spans(s),
        0 <= k <= s.len(),
        data.len() == st.len() == s.len(),
        reaching_sound(s, h, data, st),
    ensures
        reaching_sound(s, h, data, forward_pass(s, h, data, st, k)),
    decreases k,
{
    if k > 0 {
        lemma_forward_pass_sound(s, h, data, st, k - 1);
        lemma_forward_pass_grows(s, h, data, st, 0, k - 1);
        let prev = forward_pass(s, h, data, st, k - 1);
        let o = k - 1;
        if !data[o] {
            let addr = s.base_addr + o;
            let here = prev[o].union(fired_at(h, addr));
            let up = prev.update(o, here);
            assert(offset_spec(s, addr) == Some(o));
            assert forall|key: HintKey| #[trigger] here.contains(key) implies h@.contains(key) && exists|p: Seq<u64>|
                #[trigger] data_free_path(s, data, p) && p[0] == key.source_addr && p.last() == addr as u64 by {
                if !prev[o].contains(key) {
                    let p = seq![addr as u64];
                    assert(data_free_path(s, data, p));
                }
            }
            assert(reaching_sound(s, h, data, up)) by {
                assert forall|m2: int, key: HintKey| 0 <= m2 < up.len() && #[trigger] up[m2].contains(key) implies h@.contains(key)
                    && exists|p: Seq<u64>| #[trigger] data_free_path(s, data, p) && p[0] == key.source_addr && p.last() == s.base_addr + m2 by {
                    if m2 == o {
                        assert(here.contains(key));
                    }
                }
            }
            let succs = s.successors(addr as u64);
            assert forall|i: int| 0 <= i < succs.len() implies #[trigger] s.successors(addr as u64).contains(succs[i]) by {}
            lemma_merge_into_succs_sound(s, h, data, up, here, addr as u64, succs);
        }
    }
}

/// Whether `keys` holds `key`.
fn holds_key(keys: &Vec<HintKey>, key: HintKey) -> (r: bool)
    ensures
        r == keys@.contains(key),
{
    let mut k: usize = 0;
    while k < keys.len()
        invariant
            0 <= k <= keys@.len(),
            forall|j: int| 0 <= j < k ==> keys@[j] != key,
        decreases keys@.len() - k,
    {
        if keys[k] == key {
            return true;
        }
        k = k + 1;
    }
    false
}

/// Adds the keys of `src` missing from `dst`; returns whether any was.
fn merge_keys(dst: &mut Vec<HintKey>, src: &Vec<HintKey>) -> (grew: bool)
    ensures
        final(dst)@.to_set() == old(dst)@.to_set().union(src@.to_set()),
        grew == (final(dst)@.to_set() != old(dst)@.to_set()),
{
    let mut grew = false;
    let ghost start = dst@.to_set();
    for k in 0..src.len()
        invariant
            dst@.to_set() == start.union(src@.take(k as int).to_set()),
            grew == (dst@.to_set() != start),
    {
        let key = src[k];
        assert(src@.take(k + 1) =~= src@.take(k as int).push(key));
        proof {
            Seq::lemma_to_set_insert_commutes(src@.take(k as int), key);
            Seq::lemma_to_set_insert_commutes(dst@, key);
            assert(src@.take(k as int).push(key) =~= src@.take(k as int) + seq![key]);
            assert(dst@.push(key) =~= dst@ + seq![key]);
        }
        let ghost before = dst@;
        if !holds_key(dst, key) {
            dst.push(key);
            grew = true;
            assert(!before.to_set().contains(key));
            assert(dst@.to_set().contains(key) && !start.contains(key));
        } else {
            assert(dst@.to_set().contains(key));
            assert(dst@.to_set().insert(key) =~= dst@.to_set());
        }
        assert(dst@.to_set() =~= start.union(src@.take(k + 1).to_set()));
    }
    assert(src@.take(src@.len() as int) =~= src@);
    grew
}

/// A copy of `keys`.
fn copy_keys(keys: &Vec<HintKey>) -> (r: Vec<HintKey>)
    ensures
        r@ == keys@,
{
    let mut r: Vec<HintKey> = Vec::new();
    for k in 0..keys.len()
        invariant
            r@ == keys@.take(k as int),
    {
        r.push(keys[k]);
        assert(r@ =~= keys@.take(k + 1));
    }
    assert(keys@.take(keys@.len() as int) =~= keys@);
    r
}

/// The hints fired at offset `o` of the range `hints` covers.
fn fired_keys(hints: &HintSet, o: usize) -> (r: Vec<HintKey>)
    requires
        o < hints.labels@.len(),
        hints.base_addr + o <= u64::MAX,
    ensures
        r@.to_set() == fired_at(hints, hints.base_addr + o),
{
    let labels = hints.labels_at(o);
    let addr = hints.base_addr + o as u64;
    let mut r: Vec<HintKey> = Vec::new();
    for k in 0..labels.len()
        invariant
            labels@.to_set() == hints.labels_of(hints.base_addr + o),
            addr == hints.base_addr + o,
            r@.len() == k,
            forall|j: int| 0 <= j < k ==> #[trigger] r@[j] == (HintKey { source_addr: addr, label: labels@[j] }),
    {
        r.push(HintKey { source_addr: addr, label: labels[k] });
    }
    assert forall|key: HintKey| #[trigger] r@.to_set().contains(key) == fired_at(hints, hints.base_addr + o).contains(key) by {
        if r@.to_set().contains(key) {
            let j = choose|j: int| 0 <= j < r@.len() && r@[j] == key;
            assert(labels@.to_set().contains(labels@[j]));
        }
        if fired_at(hints, hints.base_addr + o).contains(key) {
            assert(hints.labels_of(hints.base_addr + o).contains(key.label));
            assert(labels@.to_set().contains(key.label));
            let j = choose|j: int| 0 <= j < labels@.len() && labels@[j] == key.label;
            assert(r@[j] == key);
        }
    }
    assert(r@.to_set() =~= fired_at(hints, hints.base_addr + o));
    r
}

/// The hints reaching each address of the buffer.
pub struct ReachingHints {
    /// The hints reaching each offset.
    pub sets: Vec<Vec<HintKey>>,
}

impl View for ReachingHints {
    type V = Seq<Set<HintKey>>;

    open spec fn view(&self) -> Seq<Set<HintKey>> {
        self.sets@.map_values(|v: Vec<HintKey>| v@.to_set())
    }
}

impl ReachingHints {
    /// No hint reaching any of `n` offsets.
    pub fn new(n: usize) -> (r: Self)
        ensures
            r.sets@.len() == n,
            forall|o: int| 0 <= o < n ==> #[trigger] r@[o] == Set::<HintKey>::empty(),
    {
        let mut sets: Vec<Vec<HintKey>> = Vec::new();
        for k in 0..n
            invariant
                sets@.len() == k,
                forall|j: int| 0 <= j < k ==> (#[trigger] sets@[j])@.len() == 0,
        {
            sets.push(Vec::new());
        }
        let r = ReachingHints { sets };
        assert forall|o: int| 0 <= o < n implies #[trigger] r@[o] == Set::<HintKey>::empty() by {
            assert(r.sets@[o]@ =~= Seq::<HintKey>::empty());
            assert(r@[o] =~= Set::<HintKey>::empty());
        }
        r
    }

    /// The hints reaching offset `o`.
    pub fn reaching_at(&self, o: usize) -> (r: &Vec<HintKey>)
        requires
            o < self.sets@.len(),
        ensures
            r@.to_set() == self@[o as int],
    {
        &self.sets[o]
    }

    /// One forward pass over the buffer, in increasing address order: at
    /// each byte that is not definitely data, the hints fired there join its
    /// reaching hints, which then join those of its control-flow successors
    /// that are not definitely data. Returns, for each offset, whether its
    /// reaching hints grew.
    pub fn propagate_forward(&mut self, superset: &Superset, hints: &HintSet, definitely_data: &[bool]) -> (grew: Vec<bool>)
        requires
            superset.wf(),
            superset.ends_below_top(),
            hints.spans(superset),
            definitely_data@.len() == superset.len(),
            old(self).sets@.len() == superset.len(),
        ensures
            final(self).sets@.len() == superset.len(),
            final(self)@ == forward_pass(superset, hints, definitely_data@, old(self)@, superset.len()),
            grew@.len() == superset.len(),
            forall|m: int| 0 <= m < superset.len() ==> #[trigger] grew@[m] == (final(self)@[m] != old(self)@[m]),
            forall|m: int| 0 <= m < superset.len() ==> old(self)@[m].subset_of(#[trigger] final(self)@[m]),
            forall|m: int|
                0 <= m < superset.len() && definitely_data@[m] ==> #[trigger] final(self)@[m] == old(self)@[m],
            forall|m: int, k: HintKey|
                0 <= m < superset.len() && !definitely_data@[m] && hints@.contains(k) && k.source_addr
                    == superset.base_addr + m ==> #[trigger] final(self)@[m].contains(k),
            (forall|m: int| 0 <= m < superset.len() ==> !#[trigger] grew@[m]) ==> closed_under_propagation(
                superset,
                hints,
                definitely_data@,
                final(self)@,
            ),
            reaching_sound(superset, hints, definitely_data@, old(self)@) ==> reaching_sound(
                superset,
                hints,
                definitely_data@,
                final(self)@,
            ),
    {
        let n = superset.instructions.len();
        let ghost init = self@;
        let mut grew: Vec<bool> = Vec::new();
        for k in 0..n
            invariant
                grew@.len() == k,
                forall|j: int| 0 <= j < k ==> !(#[trigger] grew@[j]),
        {
            grew.push(false);
        }
        for o in 0..n
            invariant
                n == superset.len(),
                superset.wf(),
                superset.ends_below_top(),
                hints.spans(superset),
                definitely_data@.len() == n,
                self.sets@.len() == n,
                init.len() == n,
                self@ == forward_pass(superset, hints, definitely_data@, init, o as int),
                grew@.len() == n,
                forall|m: int| 0 <= m < n ==> init[m].subset_of(#[trigger] self@[m]),
                forall|m: int| 0 <= m < n ==> #[trigger] grew@[m] == (self@[m] != init[m]),
        {
            let ghost st = self@;
            if !definitely_data[o] {
                let addr = superset.base_addr + o as u64;
                let fired = fired_keys(hints, o);
                let g = merge_keys(&mut self.sets[o], &fired);
                let ghost here = st[o as int].union(fired_at(hints, addr as int));
                assert(self@ =~= st.update(o as int, here));
                proof {
                    if g && self@[o as int] == init[o as int] {
                        assert(st[o as int] =~= self@[o as int]);
                    }
                }
                if g {
                    grew.set(o, true);
                }
                let here_keys = copy_keys(&self.sets[o]);
                let succs = superset.successors_of(addr);
                let ghost st_a = self@;
                assert(succs@.take(0) =~= Seq::<u64>::empty());
                for j in 0..succs.len()
                    invariant
                        n == superset.len(),
                        superset.wf(),
                        superset.ends_below_top(),
                        definitely_data@.len() == n,
                        self.sets@.len() == n,
                        init.len() == n,
                        here_keys@.to_set() == here,
                        succs@ == superset.successors(addr),
                        self@ == merge_into_succs(superset, definitely_data@, st_a, here, succs@.take(j as int)),
                        grew@.len() == n,
                        forall|m: int| 0 <= m < n ==> init[m].subset_of(#[trigger] self@[m]),
                        forall|m: int| 0 <= m < n ==> #[trigger] grew@[m] == (self@[m] != init[m]),
                {
                    let ghost cur = self@;
                    assert(succs@.take(j + 1).drop_last() =~= succs@.take(j as int));
                    match offset_of(superset, succs[j]) {
                        Some(m) => {
                            if !definitely_data[m] {
                                let g = merge_keys(&mut self.sets[m], &here_keys);
                                assert(self@ =~= cur.update(m as int, cur[m as int].union(here)));
                                proof {
                                    if g && self@[m as int] == init[m as int] {
                                        assert(cur[m as int] =~= self@[m as int]);
                                    }
                                }
                                if g {
                                    grew.set(m, true);
                                }
                            }
                        },
                        None => {},
                    }
                }
                assert(succs@.take(succs@.len() as int) =~= succs@);
            }
            proof {
                lemma_forward_step(superset, hints, definitely_data@, st, o as int);
            }
        }
        proof {
            if reaching_sound(superset, hints, definitely_data@, init) {
                lemma_forward_pass_sound(superset, hints, definitely_data@, init, n as int);
            }
            lemma_forward_step_keeps_data_pass(superset, hints, definitely_data@, init, n as int);
            assert forall|m: int, k: HintKey|
                0 <= m < n && !definitely_data@[m] && hints@.contains(k) && k.source_addr
                    == superset.base_addr + m implies #[trigger] self@[m].contains(k) by {
                lemma_forward_pass_holds_own_hints(superset, hints, definitely_data@, init, m, k);
            }
            if forall|m: int| 0 <= m < n ==> !#[trigger] grew@[m] {
                assert forall|m: int| 0 <= m < n implies self@[m] == init[m] by {
                    assert(!grew@[m]);
                }
                assert(self@ =~= init);
                lemma_forward_pass_fixed_point(superset, hints, definitely_data@, init);
            }
        }
        grew
    }
}

} // verus!
