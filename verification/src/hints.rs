//! Hint extractors: the evidence that an address starts a real instruction.
use crate::superset::Instruction;
use crate::superset::Superset;
use std::collections::HashMap;
use std::collections::HashSet;
use vstd::prelude::*;

verus! {

broadcast use vstd::std_specs::hash::group_hash_axioms;

/// The type of hint.
#[derive(Debug, Clone, Copy, PartialEq, Eq, Hash, Structural)]
pub enum HintLabel {
    /// Hint I: control-flow convergence, 1-byte displacement.
    CtrlConvRel,
    /// Hint I: control-flow convergence, 2-byte displacement.
    CtrlConvNear,
    /// Hint I: control-flow convergence, 4-byte displacement.
    CtrlConvLong,
    /// Hint II: control-flow crossing, 1-byte displacement.
    CtrlCrossRel,
    /// Hint II: control-flow crossing, 2-byte displacement.
    CtrlCrossNear,
    /// Hint II: control-flow crossing, 4-byte displacement.
    CtrlCrossLong,
    /// Weak control-flow hint: a branch target that does not overlap its source.
    CtrlWeak,
    /// Hint III: register def-use.
    RegDefUse,
}

/// A hint: the address that produced it and the type of hint.
#[derive(Debug, Clone, Copy, PartialEq, Eq, Hash, Structural)]
pub struct HintKey {
    /// The address that produced this hint.
    pub source_addr: u64,
    /// The type of hint.
    pub label: HintLabel,
}

/// A set of hints whose sources lie in one code buffer: the labels fired at
/// each offset of the buffer.
pub struct HintSet {
    /// Address of the buffer's first byte.
    pub base_addr: u64,
    /// The labels fired at each offset.
    pub labels: Vec<Vec<HintLabel>>,
}

impl View for HintSet {
    type V = Set<HintKey>;

    open spec fn view(&self) -> Set<HintKey> {
        Set::new(
            |k: HintKey|
                self.base_addr <= k.source_addr < self.base_addr + self.labels@.len()
                    && self.labels@[k.source_addr - self.base_addr]@.contains(k.label),
        )
    }
}

/// Whether `labels` holds `label`.
fn holds_label(labels: &Vec<HintLabel>, label: HintLabel) -> (r: bool)
    ensures
        r == labels@.contains(label),
{
    let mut k: usize = 0;
    while k < labels.len()
        invariant
            0 <= k <= labels@.len(),
            forall|j: int| 0 <= j < k ==> labels@[j] != label,
        decreases labels@.len() - k,
    {
        if labels[k] == label {
            return true;
        }
        k = k + 1;
    }
    false
}

/// A copy of `labels`.
fn copy_labels(labels: &Vec<HintLabel>) -> (r: Vec<HintLabel>)
    ensures
        r@ == labels@,
{
    let mut r: Vec<HintLabel> = Vec::new();
    for k in 0..labels.len()
        invariant
            r@ == labels@.take(k as int),
    {
        r.push(labels[k]);
        assert(r@ =~= labels@.take(k + 1));
    }
    assert(labels@.take(labels@.len() as int) =~= labels@);
    r
}

impl HintSet {
    /// The set covers the same addresses as `s`.
    pub open spec fn spans(&self, s: &Superset) -> bool {
        self.base_addr == s.base_addr && self.labels@.len() == s.instructions@.len()
    }

    /// No label occurs twice at one offset.
    pub open spec fn wf(&self) -> bool {
        forall|o: int| 0 <= o < self.labels@.len() ==> (#[trigger] self.labels@[o])@.no_duplicates()
    }

    /// The labels fired at address `addr`.
    pub open spec fn labels_of(&self, addr: int) -> Set<HintLabel> {
        Set::new(
            |l: HintLabel|
                self.base_addr <= addr < self.base_addr + self.labels@.len()
                    && self.labels@[addr - self.base_addr]@.contains(l),
        )
    }

    /// An empty set covering `n` bytes from `base_addr`.
    pub fn new(base_addr: u64, n: usize) -> (r: Self)
        ensures
            r.base_addr == base_addr,
            r.labels@.len() == n,
            r.wf(),
            r@ == Set::<HintKey>::empty(),
    {
        let mut labels: Vec<Vec<HintLabel>> = Vec::new();
        for k in 0..n
            invariant
                labels@.len() == k,
                forall|j: int| 0 <= j < k ==> (#[trigger] labels@[j])@.len() == 0,
        {
            labels.push(Vec::new());
        }
        let r = HintSet { base_addr, labels };
        assert(r@ =~= Set::<HintKey>::empty());
        r
    }

    /// Adds `key`, whose source lies in the covered range.
    pub fn insert(&mut self, key: HintKey)
        requires
            old(self).base_addr <= key.source_addr < old(self).base_addr + old(self).labels@.len(),
        ensures
            final(self)@ == old(self)@.insert(key),
            final(self).base_addr == old(self).base_addr,
            final(self).labels@.len() == old(self).labels@.len(),
            old(self).wf() ==> final(self).wf(),
    {
        let n = self.labels.len();
        let d = key.source_addr - self.base_addr;
        assert(d < n);
        let off = d as usize;
        if holds_label(&self.labels[off], key.label) {
            assert(self@ =~= old(self)@.insert(key));
            return;
        }
        let mut row = copy_labels(&self.labels[off]);
        row.push(key.label);
        self.labels.set(off, row);
        assert forall|k: HintKey| #[trigger] self@.contains(k) == old(self)@.insert(key).contains(k) by {
            if self.base_addr <= k.source_addr < self.base_addr + self.labels@.len() {
                let j = k.source_addr - self.base_addr;
                if j == off {
                    assert(self.labels@[j]@ == old(self).labels@[j]@.push(key.label));
                    if k.label != key.label {
                        assert(self.labels@[j]@.contains(k.label) ==> old(self).labels@[j]@.contains(k.label)) by {
                            if self.labels@[j]@.contains(k.label) {
                                let i = choose|i: int| 0 <= i < self.labels@[j]@.len() && self.labels@[j]@[i] == k.label;
                                assert(i < old(self).labels@[j]@.len());
                                assert(old(self).labels@[j]@[i] == k.label);
                            }
                        }
                        assert(old(self).labels@[j]@.contains(k.label) ==> self.labels@[j]@.contains(k.label)) by {
                            if old(self).labels@[j]@.contains(k.label) {
                                let i = choose|i: int| 0 <= i < old(self).labels@[j]@.len() && old(self).labels@[j]@[i] == k.label;
                                assert(self.labels@[j]@[i] == k.label);
                            }
                        }
                    } else {
                        assert(self.labels@[j]@[self.labels@[j]@.len() - 1] == key.label);
                    }
                }
            }
        }
        assert(self@ =~= old(self)@.insert(key));
    }

    /// Whether the set holds `key`.
    pub fn contains_key(&self, key: &HintKey) -> (r: bool)
        ensures
            r == self@.contains(*key),
    {
        if key.source_addr < self.base_addr {
            return false;
        }
        let off = key.source_addr - self.base_addr;
        if off >= self.labels.len() as u64 {
            return false;
        }
        holds_label(&self.labels[off as usize], key.label)
    }

    /// The labels fired at `offset`.
    pub fn labels_at(&self, offset: usize) -> (r: &Vec<HintLabel>)
        requires
            offset < self.labels@.len(),
        ensures
            r@.to_set() == self.labels_of(self.base_addr + offset),
    {
        let r = &self.labels[offset];
        assert(r@.to_set() =~= self.labels_of(self.base_addr + offset));
        r
    }

    /// Every hint of the set once, by address and then in the order fired.
    pub fn keys(&self) -> (r: Vec<HintKey>)
        requires
            self.wf(),
            self.base_addr + self.labels@.len() <= u64::MAX + 1,
        ensures
            r@.to_set() == self@,
            r@.no_duplicates(),
            forall|i: int, j: int| 0 <= i < j < r@.len() ==> r@[i].source_addr <= r@[j].source_addr,
    {
        let mut out: Vec<HintKey> = Vec::new();
        let n = self.labels.len();
        for o in 0..n
            invariant
                n == self.labels@.len(),
                self.wf(),
                self.base_addr + n <= u64::MAX + 1,
                out@.no_duplicates(),
                forall|i: int, j: int| 0 <= i < j < out@.len() ==> out@[i].source_addr <= out@[j].source_addr,
                forall|k: HintKey| #[trigger] out@.contains(k) ==> self@.contains(k) && k.source_addr < self.base_addr + o,
                forall|k: HintKey| #[trigger] self@.contains(k) && k.source_addr < self.base_addr + o ==> out@.contains(k),
        {
            let addr = self.base_addr + o as u64;
            let ghost before = out@;
            let ghost row = self.labels@[o as int]@;
            let m = self.labels[o].len();
            for j in 0..m
                invariant
                    m == row.len(),
                    row == self.labels@[o as int]@,
                    row.no_duplicates(),
                    o < n,
                    n == self.labels@.len(),
                    addr == self.base_addr + o,
                    before.no_duplicates(),
                    forall|i: int, j: int| 0 <= i < j < before.len() ==> before[i].source_addr <= before[j].source_addr,
                    forall|k: HintKey| #[trigger] before.contains(k) ==> k.source_addr < addr,
                    out@ == before + Seq::new(j as nat, |i: int| HintKey { source_addr: addr, label: row[i] }),
            {
                let key = HintKey { source_addr: addr, label: self.labels[o][j] };
                proof {
                    let pushed = Seq::new(j as nat, |i: int| HintKey { source_addr: addr, label: row[i] });
                    assert(Seq::new((j + 1) as nat, |i: int| HintKey { source_addr: addr, label: row[i] }) =~= pushed.push(key));
                    assert(before + pushed.push(key) =~= (before + pushed).push(key));
                    assert forall|i: int| 0 <= i < out@.len() implies out@[i] != key by {
                        if i < before.len() {
                            assert(before.contains(before[i]));
                        } else {
                            assert(out@[i] == pushed[i - before.len()]);
                        }
                    }
                }
                out.push(key);
            }
            proof {
                let pushed = Seq::new(m as nat, |i: int| HintKey { source_addr: addr, label: row[i] });
                assert(out@ == before + pushed);
                assert forall|i: int, j: int| 0 <= i < j < out@.len() implies out@[i] != out@[j]
                    && out@[i].source_addr <= out@[j].source_addr by {
                    if j < before.len() {
                        assert(out@[i] == before[i] && out@[j] == before[j]);
                    } else if i < before.len() {
                        assert(out@[i] == before[i] && before.contains(before[i]));
                        assert(out@[j] == pushed[j - before.len()]);
                    } else {
                        assert(out@[i] == pushed[i - before.len()]);
                        assert(out@[j] == pushed[j - before.len()]);
                    }
                }
                assert forall|k: HintKey| #[trigger] out@.contains(k) implies self@.contains(k) && k.source_addr < self.base_addr + o + 1 by {
                    let i = choose|i: int| 0 <= i < out@.len() && out@[i] == k;
                    if i < before.len() {
                        assert(before.contains(k));
                    } else {
                        assert(out@[i] == pushed[i - before.len()]);
                        assert(row.contains(k.label));
                    }
                }
                assert forall|k: HintKey| #[trigger] self@.contains(k) && k.source_addr < self.base_addr + o + 1 implies out@.contains(k) by {
                    if k.source_addr == addr {
                        let i = choose|i: int| 0 <= i < row.len() && row[i] == k.label;
                        assert(out@[before.len() + i] == pushed[i]);
                    } else {
                        assert(before.contains(k));
                        let i = choose|i: int| 0 <= i < before.len() && before[i] == k;
                        assert(out@[i] == before[i]);
                    }
                }
            }
        }
        proof {
            assert forall|k: HintKey| #[trigger] out@.to_set().contains(k) == self@.contains(k) by {}
        }
        assert(out@.to_set() =~= self@);
        out
    }
}

/// The convergence label for a branch of `size` bytes.
pub open spec fn convergence_label(size: u8) -> HintLabel {
    if size == 2 {
        HintLabel::CtrlConvRel
    } else if size == 3 || size == 4 {
        HintLabel::CtrlConvNear
    } else {
        HintLabel::CtrlConvLong
    }
}

/// The crossing label for a branch of `size` bytes.
pub open spec fn crossing_label(size: u8) -> HintLabel {
    if size == 2 {
        HintLabel::CtrlCrossRel
    } else if size == 3 || size == 4 {
        HintLabel::CtrlCrossNear
    } else {
        HintLabel::CtrlCrossLong
    }
}

/// The convergence and crossing labels of a branch agree in width: a
/// 2-byte branch gets the 1-byte displacement label, a 3- or 4-byte branch
/// the 2-byte one, and any other the 4-byte one, in both families.
pub proof fn lemma_labels_agree_by_width(size: u8)
    ensures
        convergence_label(size) == (if size == 2 {
            HintLabel::CtrlConvRel
        } else if size == 3 || size == 4 {
            HintLabel::CtrlConvNear
        } else {
            HintLabel::CtrlConvLong
        }),
        (convergence_label(size) == HintLabel::CtrlConvRel) == (crossing_label(size)
            == HintLabel::CtrlCrossRel),
        (convergence_label(size) == HintLabel::CtrlConvNear) == (crossing_label(size)
            == HintLabel::CtrlCrossNear),
        (convergence_label(size) == HintLabel::CtrlConvLong) == (crossing_label(size)
            == HintLabel::CtrlCrossLong),
{
}

/// The instruction at offset `o` of `s`, which is assumed to decode.
pub open spec fn insn(s: &Superset, o: int) -> Instruction {
    s.instructions@[o]->Some_0
}

/// Offset `o` of `s` holds a jump or call.
pub open spec fn is_branch_at(s: &Superset, o: int) -> bool {
    s.instructions@[o] matches Some(i) && i.branches()
}

/// Offset `o` of `s` holds a jump or call with a constant target.
pub open spec fn direct_branch_at(s: &Superset, o: int) -> bool {
    is_branch_at(s, o) && insn(s, o).branch_target is Some
}

/// The constant target of the branch at offset `o`.
pub open spec fn target(s: &Superset, o: int) -> u64 {
    insn(s, o).branch_target->Some_0
}

/// The number of direct branches before offset `k` that target `t`.
pub open spec fn targeting(s: &Superset, t: u64, k: int) -> nat
    decreases k,
{
    if k <= 0 {
        0
    } else {
        targeting(s, t, k - 1) + if direct_branch_at(s, k - 1) && target(s, k - 1) == t {
            1nat
        } else {
            0nat
        }
    }
}

/// Convergence hint of offset `o`: at least two direct branches share its
/// target.
pub open spec fn convergence_at(s: &Superset, o: int) -> bool {
    direct_branch_at(s, o) && targeting(s, target(s, o), s.len()) >= 2
}

/// The hints `key(o)` of the offsets `o` before `k` at which `fires` holds.
pub open spec fn hints_upto(k: int, fires: spec_fn(int) -> bool, key: spec_fn(int) -> HintKey) -> Set<
    HintKey,
> {
    Set::new(|h: HintKey| exists|o: int| 0 <= o < k && #[trigger] fires(o) && h == key(o))
}

proof fn lemma_hints_upto_step(k: int, fires: spec_fn(int) -> bool, key: spec_fn(int) -> HintKey)
    requires
        0 <= k,
    ensures
        hints_upto(k + 1, fires, key) == if fires(k) {
            hints_upto(k, fires, key).insert(key(k))
        } else {
            hints_upto(k, fires, key)
        },
        hints_upto(0, fires, key) == Set::<HintKey>::empty(),
{
    let next = if fires(k) {
        hints_upto(k, fires, key).insert(key(k))
    } else {
        hints_upto(k, fires, key)
    };
    assert forall|h: HintKey| #[trigger] hints_upto(k + 1, fires, key).contains(h) == next.contains(h) by {
        if hints_upto(k + 1, fires, key).contains(h) {
            let o = choose|o: int| 0 <= o < k + 1 && #[trigger] fires(o) && h == key(o);
            if o < k {
                assert(hints_upto(k, fires, key).contains(h));
            }
        }
        if hints_upto(k, fires, key).contains(h) {
            let o = choose|o: int| 0 <= o < k && #[trigger] fires(o) && h == key(o);
            assert(hints_upto(k + 1, fires, key).contains(h));
        }
        if fires(k) && h == key(k) {
            assert(hints_upto(k + 1, fires, key).contains(h));
        }
    }
    assert(hints_upto(k + 1, fires, key) =~= next);
    assert(hints_upto(0, fires, key) =~= Set::<HintKey>::empty());
}

/// The convergence hint of offset `o`.
pub open spec fn convergence_key(s: &Superset, o: int) -> HintKey {
    HintKey { source_addr: insn(s, o).address, label: convergence_label(insn(s, o).size) }
}

/// The convergence hints of `s`: one at each direct branch whose target at
/// least one other direct branch shares.
pub open spec fn convergence_hints(s: &Superset) -> Set<HintKey> {
    hints_upto(s.len(), |o: int| convergence_at(s, o), |o: int| convergence_key(s, o))
}

proof fn lemma_targeting_others(s: &Superset, t: u64, o: int, k: int)
    requires
        0 <= o < k,
        direct_branch_at(s, o) && target(s, o) == t,
    ensures
        targeting(s, t, k) >= 2 <==> exists|o2: int|
            0 <= o2 < k && o2 != o && #[trigger] direct_branch_at(s, o2) && target(s, o2) == t,
    decreases k,
{
    if k - 1 == o {
        lemma_targeting_none(s, t, o);
    } else {
        lemma_targeting_others(s, t, o, k - 1);
        lemma_targeting_pos(s, t, o, k - 1);
        if exists|o2: int| 0 <= o2 < k && o2 != o && #[trigger] direct_branch_at(s, o2) && target(s, o2) == t {
            let o2 = choose|o2: int| 0 <= o2 < k && o2 != o && #[trigger] direct_branch_at(s, o2) && target(s, o2) == t;
            if o2 < k - 1 {
                assert(exists|o3: int| 0 <= o3 < k - 1 && o3 != o && #[trigger] direct_branch_at(s, o3) && target(s, o3) == t);
            }
        }
    }
}

proof fn lemma_targeting_none(s: &Superset, t: u64, k: int)
    requires
        0 <= k,
    ensures
        targeting(s, t, k) == 0 <==> !exists|o2: int| 0 <= o2 < k && #[trigger] direct_branch_at(s, o2) && target(s, o2) == t,
    decreases k,
{
    if k > 0 {
        lemma_targeting_none(s, t, k - 1);
        if exists|o2: int| 0 <= o2 < k && #[trigger] direct_branch_at(s, o2) && target(s, o2) == t {
            let o2 = choose|o2: int| 0 <= o2 < k && #[trigger] direct_branch_at(s, o2) && target(s, o2) == t;
            if o2 < k - 1 {
                assert(exists|o3: int| 0 <= o3 < k - 1 && #[trigger] direct_branch_at(s, o3) && target(s, o3) == t);
            }
        }
    }
}

proof fn lemma_targeting_pos(s: &Superset, t: u64, o: int, k: int)
    requires
        0 <= o < k,
        direct_branch_at(s, o) && target(s, o) == t,
    ensures
        targeting(s, t, k) >= 1,
    decreases k,
{
    if k - 1 != o {
        lemma_targeting_pos(s, t, o, k - 1);
    }
}

/// A convergence hint fires at a direct branch exactly when another direct
/// branch of the superset shares its target.
pub proof fn lemma_convergence_shared_target(s: &Superset, o: int)
    requires
        0 <= o < s.len(),
    ensures
        convergence_at(s, o) <==> direct_branch_at(s, o) && exists|o2: int|
            0 <= o2 < s.len() && o2 != o && #[trigger] direct_branch_at(s, o2) && target(s, o2) == target(s, o),
{
    if direct_branch_at(s, o) {
        lemma_targeting_others(s, target(s, o), o, s.len());
    }
}

/// Weak hint of offset `o`: the branch target decodes and its instruction
/// does not overlap the branch.
pub open spec fn weak_at(s: &Superset, o: int) -> bool {
    direct_branch_at(s, o) && {
        let i = insn(s, o);
        let t = target(s, o);
        s.insn_at(t as int) matches Some(j) && !(i.address < t + j.size && t < i.address + i.size)
    }
}

/// The weak hint of offset `o`.
pub open spec fn weak_key(s: &Superset, o: int) -> HintKey {
    HintKey { source_addr: insn(s, o).address, label: HintLabel::CtrlWeak }
}

/// The weak control-flow hints of `s`.
pub open spec fn weak_hints(s: &Superset) -> Set<HintKey> {
    hints_upto(s.len(), |o: int| weak_at(s, o), |o: int| weak_key(s, o))
}

/// The last offset before `k` holding a branch that ends at address `e`.
pub open spec fn last_ending(s: &Superset, e: int, k: int) -> Option<int>
    decreases k,
{
    if k <= 0 {
        None
    } else if is_branch_at(s, k - 1) && insn(s, k - 1).address + insn(s, k - 1).size == e {
        Some(k - 1)
    } else {
        last_ending(s, e, k - 1)
    }
}

/// The offset of the branch the branch at `o` crosses into: the last
/// branch ending at its target.
pub open spec fn crossed(s: &Superset, o: int) -> int {
    last_ending(s, target(s, o) as int, s.len())->Some_0
}

/// Crossing hint of offset `o`: its branch targets the address right after
/// another branch, the last one to end there.
pub open spec fn crossing_at(s: &Superset, o: int) -> bool {
    direct_branch_at(s, o) && last_ending(s, target(s, o) as int, s.len()) is Some && crossed(s, o)
        != o
}

/// The crossing hint of the crossing branch at offset `o`.
pub open spec fn crossing_key(s: &Superset, o: int) -> HintKey {
    HintKey { source_addr: insn(s, o).address, label: crossing_label(insn(s, o).size) }
}

/// The crossing hint of the branch crossed into from offset `o`.
pub open spec fn crossed_key(s: &Superset, o: int) -> HintKey {
    crossing_key(s, crossed(s, o))
}

/// The crossing hints of `s`: one at each crossing branch and one at the
/// branch it crosses into.
pub open spec fn crossing_hints(s: &Superset) -> Set<HintKey> {
    hints_upto(s.len(), |o: int| crossing_at(s, o), |o: int| crossing_key(s, o)).union(
        hints_upto(s.len(), |o: int| crossing_at(s, o), |o: int| crossed_key(s, o)),
    )
}

/// Returns the convergence label for a branch, from its encoding width.
fn displacement_label_for_convergence(insn: &Instruction) -> (r: HintLabel)
    ensures
        r == convergence_label(insn.size),
{
    match insn.size {
        2 => HintLabel::CtrlConvRel,
        3 | 4 => HintLabel::CtrlConvNear,
        _ => HintLabel::CtrlConvLong,
    }
}

/// Returns the crossing label for a branch, from its encoding width.
fn displacement_label_for_crossing(insn: &Instruction) -> (r: HintLabel)
    ensures
        r == crossing_label(insn.size),
{
    match insn.size {
        2 => HintLabel::CtrlCrossRel,
        3 | 4 => HintLabel::CtrlCrossNear,
        _ => HintLabel::CtrlCrossLong,
    }
}

/// Emits the hint `label` at `source_addr`.
fn emit_hint(hints: &mut HintSet, source_addr: u64, label: HintLabel)
    requires
        old(hints).base_addr <= source_addr < old(hints).base_addr + old(hints).labels@.len(),
    ensures
        final(hints)@ == old(hints)@.insert(HintKey { source_addr, label }),
        final(hints).base_addr == old(hints).base_addr,
        final(hints).labels@.len() == old(hints).labels@.len(),
        old(hints).wf() ==> final(hints).wf(),
{
    hints.insert(HintKey { source_addr, label });
}

/// Adds the convergence hints of `superset`.
fn extract_control_flow_convergence(superset: &Superset, hints: &mut HintSet)
    requires
        superset.wf(),
        superset.ends_below_top(),
        old(hints).spans(superset),
        old(hints).wf(),
    ensures
        final(hints).spans(superset),
        final(hints).wf(),
        final(hints)@ == old(hints)@.union(convergence_hints(superset)),
{
    let n = superset.instructions.len();
    let mut counts: HashMap<u64, usize> = HashMap::new();
    for o in 0..n
        invariant
            n == superset.len(),
            forall|t: u64| #[trigger] counts@.contains_key(t) ==> counts@[t] == targeting(superset, t, o as int) && counts@[t] <= o,
            forall|t: u64| !(#[trigger] counts@.contains_key(t)) ==> targeting(superset, t, o as int) == 0,
    {
        if let Some(i) = &superset.instructions[o] {
            if i.is_branch() {
                if let Some(t) = i.branch_target {
                    let c = match counts.get(&t) {
                        Some(c) => *c,
                        None => 0,
                    };
                    counts.insert(t, c + 1);
                }
            }
        }
        assert forall|t: u64| #[trigger]
            targeting(superset, t, o + 1) == targeting(superset, t, o as int) + if direct_branch_at(
                superset,
                o as int,
            ) && target(superset, o as int) == t {
                1nat
            } else {
                0nat
            } by {}
    }
    let ghost old_hints = hints@;
    proof {
        lemma_hints_upto_step(0, |p: int| convergence_at(superset, p), |p: int| convergence_key(superset, p));
        assert(old_hints.union(Set::<HintKey>::empty()) =~= old_hints);
    }
    for o in 0..n
        invariant
            n == superset.len(),
            superset.wf(),
            superset.ends_below_top(),
            hints.spans(superset),
            hints.wf(),
            forall|t: u64| #[trigger] counts@.contains_key(t) ==> counts@[t] == targeting(superset, t, n as int),
            forall|t: u64| !(#[trigger] counts@.contains_key(t)) ==> targeting(superset, t, n as int) == 0,
            hints@ == old_hints.union(
                hints_upto(o as int, |p: int| convergence_at(superset, p), |p: int| convergence_key(superset, p)),
            ),
    {
        proof {
            lemma_hints_upto_step(o as int, |p: int| convergence_at(superset, p), |p: int| convergence_key(superset, p));
        }
        if let Some(i) = &superset.instructions[o] {
            if i.is_branch() {
                if let Some(t) = i.branch_target {
                    let c = match counts.get(&t) {
                        Some(c) => *c,
                        None => 0,
                    };
                    if c >= 2 {
                        let label = displacement_label_for_convergence(i);
                        emit_hint(hints, i.address, label);
                    }
                }
            }
        }
        assert(hints@ =~= old_hints.union(
            hints_upto(o + 1, |p: int| convergence_at(superset, p), |p: int| convergence_key(superset, p)),
        ));
    }
}

/// Adds the weak control-flow hints of `superset`.
fn extract_weak_control_flow(superset: &Superset, hints: &mut HintSet)
    requires
        superset.wf(),
        superset.ends_below_top(),
        old(hints).spans(superset),
        old(hints).wf(),
    ensures
        final(hints).spans(superset),
        final(hints).wf(),
        final(hints)@ == old(hints)@.union(weak_hints(superset)),
{
    let n = superset.instructions.len();
    let ghost old_hints = hints@;
    proof {
        lemma_hints_upto_step(0, |p: int| weak_at(superset, p), |p: int| weak_key(superset, p));
        assert(old_hints.union(Set::<HintKey>::empty()) =~= old_hints);
    }
    for o in 0..n
        invariant
            n == superset.len(),
            superset.wf(),
            superset.ends_below_top(),
            hints.spans(superset),
            hints.wf(),
            hints@ == old_hints.union(
                hints_upto(o as int, |p: int| weak_at(superset, p), |p: int| weak_key(superset, p)),
            ),
    {
        proof {
            lemma_hints_upto_step(o as int, |p: int| weak_at(superset, p), |p: int| weak_key(superset, p));
        }
        if let Some(i) = &superset.instructions[o] {
            if i.is_branch() {
                if let Some(t) = i.branch_target {
                    if let Some(j) = superset.at(t) {
                        let source_end = i.address + i.size as u64;
                        let target_end = t + j.size as u64;
                        let occludes = i.address < target_end && t < source_end;
                        if !occludes {
                            emit_hint(hints, i.address, HintLabel::CtrlWeak);
                        }
                    }
                }
            }
        }
        assert(hints@ =~= old_hints.union(
            hints_upto(o + 1, |p: int| weak_at(superset, p), |p: int| weak_key(superset, p)),
        ));
    }
}

/// Adds the crossing hints of `superset`.
fn extract_control_flow_crossing(superset: &Superset, hints: &mut HintSet)
    requires
        superset.wf(),
        superset.ends_below_top(),
        old(hints).spans(superset),
        old(hints).wf(),
    ensures
        final(hints).spans(superset),
        final(hints).wf(),
        final(hints)@ == old(hints)@.union(crossing_hints(superset)),
{
    let n = superset.instructions.len();
    // Address right after each branch source, to the last branch ending there.
    let mut post_branch: HashMap<u64, usize> = HashMap::new();
    for o in 0..n
        invariant
            n == superset.len(),
            superset.wf(),
            superset.ends_below_top(),
            forall|e: u64| #[trigger] post_branch@.contains_key(e) <==> last_ending(superset, e as int, o as int) is Some,
            forall|e: u64| #[trigger] post_branch@.contains_key(e) ==> post_branch@[e] == last_ending(superset, e as int, o as int)->Some_0,
    {
        if let Some(i) = &superset.instructions[o] {
            if i.is_branch() {
                post_branch.insert(i.address + i.size as u64, o);
            }
        }
    }
    let ghost old_hints = hints@;
    let ghost fires = |p: int| crossing_at(superset, p);
    let ghost ka = |p: int| crossing_key(superset, p);
    let ghost kb = |p: int| crossed_key(superset, p);
    proof {
        lemma_hints_upto_step(0, fires, ka);
        lemma_hints_upto_step(0, fires, kb);
        assert(old_hints.union(Set::<HintKey>::empty()).union(Set::<HintKey>::empty()) =~= old_hints);
    }
    for o in 0..n
        invariant
            n == superset.len(),
            superset.wf(),
            superset.ends_below_top(),
            hints.spans(superset),
            hints.wf(),
            fires == (|p: int| crossing_at(superset, p)),
            ka == (|p: int| crossing_key(superset, p)),
            kb == (|p: int| crossed_key(superset, p)),
            forall|e: u64| #[trigger] post_branch@.contains_key(e) <==> last_ending(superset, e as int, n as int) is Some,
            forall|e: u64| #[trigger] post_branch@.contains_key(e) ==> post_branch@[e] == last_ending(superset, e as int, n as int)->Some_0,
            hints@ == old_hints.union(hints_upto(o as int, fires, ka)).union(hints_upto(o as int, fires, kb)),
    {
        proof {
            lemma_hints_upto_step(o as int, fires, ka);
            lemma_hints_upto_step(o as int, fires, kb);
        }
        if let Some(i) = &superset.instructions[o] {
            if i.is_branch() {
                if let Some(t) = i.branch_target {
                    if let Some(o2) = post_branch.get(&t) {
                        let o2 = *o2;
                        proof {
                            lemma_last_ending_bounds(superset, t as int, n as int);
                        }
                        if let Some(other) = &superset.instructions[o2] {
                            if other.address != i.address {
                                emit_hint(hints, i.address, displacement_label_for_crossing(i));
                                emit_hint(hints, other.address, displacement_label_for_crossing(other));
                            }
                        }
                    }
                }
            }
        }
        assert(hints@ =~= old_hints.union(hints_upto(o + 1, fires, ka)).union(hints_upto(o + 1, fires, kb)));
    }
}

proof fn lemma_last_ending_bounds(s: &Superset, e: int, k: int)
    requires
        0 <= k <= s.len(),
    ensures
        last_ending(s, e, k) matches Some(o) ==> 0 <= o < k && is_branch_at(s, o) && insn(s, o).address
            + insn(s, o).size == e,
    decreases k,
{
    if k > 0 {
        lemma_last_ending_bounds(s, e, k - 1);
    }
}

/// How many control-flow steps the register def-use walk takes at most.
pub const MAX_WALK_DEPTH: usize = 50;

/// The register def-use hint at `addr`.
pub open spec fn def_use_key(addr: u64) -> HintKey {
    HintKey { source_addr: addr, label: HintLabel::RegDefUse }
}

/// `p` is a clean path for `reg`: each address a control-flow successor of
/// the one before, and each address strictly inside it decoding to an
/// instruction that neither reads nor writes `reg`.
pub open spec fn clean_path(s: &Superset, reg: u16, p: Seq<u64>) -> bool {
    &&& p.len() >= 2
    &&& forall|i: int| 0 <= i < p.len() - 1 ==> #[trigger] s.successors(p[i]).contains(p[i + 1])
    &&& forall|i: int|
        0 < i < p.len() - 1 ==> (s.insn_at(#[trigger] p[i] as int) matches Some(j) && !j.reads(reg)
            && !j.writes(reg))
}

/// The instruction at `d` writes `reg`, the one at `u` reads it, and a clean
/// path of at most `depth` steps leads from `d` to `u`.
pub open spec fn def_use_pair(s: &Superset, d: u64, u: u64, reg: u16, depth: nat) -> bool {
    &&& s.insn_at(d as int) matches Some(i) && i.writes(reg)
    &&& s.insn_at(u as int) matches Some(j) && j.reads(reg)
    &&& exists|p: Seq<u64>|
        #[trigger] clean_path(s, reg, p) && p[0] == d && p.last() == u && p.len() <= depth + 1
}

/// `k` is a def-use hint at the def or the use of a pair of `reg` from `d`.
pub open spec fn def_use_hint_from(s: &Superset, k: HintKey, d: u64, reg: u16, depth: nat) -> bool {
    k.label == HintLabel::RegDefUse && exists|u: u64|
        #[trigger] def_use_pair(s, d, u, reg, depth) && (k.source_addr == d || k.source_addr == u)
}

/// `k` is a def-use hint at the def or the use of a def-use pair of `s`
/// within the walk depth.
pub open spec fn def_use_hint(s: &Superset, k: HintKey) -> bool {
    exists|d: u64, reg: u16| #[trigger] def_use_hint_from(s, k, d, reg, MAX_WALK_DEPTH as nat)
}

/// The instruction at `d` writes `reg` and the one at its control-flow
/// successor `u` reads it.
pub open spec fn direct_def_use(s: &Superset, d: u64, u: u64, reg: u16) -> bool {
    &&& s.insn_at(d as int) matches Some(i) && i.writes(reg)
    &&& s.successors(d).contains(u)
    &&& s.insn_at(u as int) matches Some(j) && j.reads(reg)
}

/// The instruction at `d` writes `reg` and has `m` as its only control-flow
/// successor, and the instruction at `m` neither reads nor writes `reg`.
pub open spec fn only_clean_successor(s: &Superset, d: u64, m: u64, reg: u16) -> bool {
    &&& s.insn_at(d as int) matches Some(i) && i.writes(reg)
    &&& s.successors(d).contains(m)
    &&& forall|x: u64| #[trigger] s.successors(d).contains(x) ==> x == m
    &&& s.insn_at(m as int) matches Some(j) && !j.reads(reg) && !j.writes(reg)
}

/// The instruction at `d` writes `reg`, its only control-flow successor `m`
/// leaves `reg` alone, and `u`, a control-flow successor of `m` by its branch
/// target or its fall-through, reads `reg`.
pub open spec fn def_use_through(s: &Superset, d: u64, m: u64, u: u64, reg: u16) -> bool {
    &&& only_clean_successor(s, d, m, reg)
    &&& s.successors(m).contains(u)
    &&& s.insn_at(u as int) matches Some(k) && k.reads(reg)
}

/// A pending walk entry: an address reached by a clean path from `d` whose
/// length matches the steps left.
pub open spec fn walk_entry_ok(s: &Superset, d: u64, reg: u16, depth: nat, e: (u64, usize)) -> bool {
    &&& e.1 <= depth
    &&& exists|p: Seq<u64>|
        #[trigger] clean_path(s, reg, p) && p[0] == d && p.last() == e.0 && p.len() == depth - e.1
            + 2
}

/// The state of a def-use walk: the entries still to take, each an address
/// with the steps left there, the addresses visited, and the uses found.
#[verifier::ext_equal]
pub struct WalkState {
    pub stack: Seq<(u64, usize)>,
    pub visited: Set<u64>,
    pub found: Set<u64>,
}

/// The walk from `d` before its first step: each control-flow successor of
/// `d`, with `depth` steps left, and nothing visited or found.
pub open spec fn walk_start(s: &Superset, d: u64, depth: usize) -> WalkState {
    WalkState {
        stack: s.successors(d).map_values(|x: u64| (x, depth)),
        visited: Set::empty(),
        found: Set::empty(),
    }
}

/// One step of the walk for `reg`. The last entry leaves the stack. It is
/// dropped when no steps are left, when its address decodes to nothing, or
/// when that address was visited before. Otherwise the address is visited:
/// an instruction that reads `reg` there is a use; one that writes it ends
/// the path; any other puts the address's successors on the stack, in order,
/// with one step fewer.
pub open spec fn walk_step(s: &Superset, reg: u16, w: WalkState) -> WalkState {
    let (addr, left) = w.stack.last();
    let rest = w.stack.drop_last();
    match s.insn_at(addr as int) {
        Some(i) if left != 0 && !w.visited.contains(addr) => {
            let visited = w.visited.insert(addr);
            if i.reads(reg) {
                WalkState { stack: rest, visited, found: w.found.insert(addr) }
            } else if i.writes(reg) {
                WalkState { stack: rest, visited, found: w.found }
            } else {
                WalkState {
                    stack: rest + s.successors(addr).map_values(|x: u64| (x, (left - 1) as usize)),
                    visited,
                    found: w.found,
                }
            }
        },
        _ => WalkState { stack: rest, visited: w.visited, found: w.found },
    }
}

/// The walk for `reg` from `d` after `steps` steps; once its stack is empty
/// it stays as it is.
pub open spec fn walk_after(s: &Superset, d: u64, reg: u16, depth: usize, steps: nat) -> WalkState
    decreases steps,
{
    if steps == 0 {
        walk_start(s, d, depth)
    } else {
        let w = walk_after(s, d, reg, depth, (steps - 1) as nat);
        if w.stack.len() == 0 {
            w
        } else {
            walk_step(s, reg, w)
        }
    }
}

/// The walk has ended within `steps` steps.
pub open spec fn walk_ended(s: &Superset, d: u64, reg: u16, depth: usize, steps: nat) -> bool {
    walk_after(s, d, reg, depth, steps).stack.len() == 0
}

/// The uses the walk for `reg` from `d` finds once it has ended.
pub open spec fn walk_uses(s: &Superset, d: u64, reg: u16, depth: usize) -> Set<u64> {
    walk_after(s, d, reg, depth, choose|steps: nat| walk_ended(s, d, reg, depth, steps)).found
}

/// The hints a walk from `d` that found `uses` fires: one at each use, and
/// one at `d` when there is any.
pub open spec fn walk_keys(d: u64, uses: Set<u64>) -> Set<HintKey> {
    Set::new(
        |k: HintKey|
            k.label == HintLabel::RegDefUse && (uses.contains(k.source_addr) || (k.source_addr == d
                && exists|u: u64| #[trigger] uses.contains(u))),
    )
}

/// The instruction at `d` writes `reg`, and the walk for `reg` from `d`
/// fires `k`.
pub open spec fn walk_fires(s: &Superset, d: u64, reg: u16, k: HintKey) -> bool {
    &&& s.insn_at(d as int) matches Some(i) && i.writes(reg)
    &&& walk_keys(d, walk_uses(s, d, reg, MAX_WALK_DEPTH)).contains(k)
}

/// The register def-use hints of `s`: those fired by the walk from each
/// instruction for each register it writes.
pub open spec fn def_use_hints(s: &Superset) -> Set<HintKey> {
    Set::new(|k: HintKey| exists|d: u64, reg: u16| #[trigger] walk_fires(s, d, reg, k))
}

/// The register def-use hints are exactly those that the walk, at most
/// `MAX_WALK_DEPTH` steps deep, fires from each decoded instruction for
/// each register it writes; every one of them has the label `RegDefUse`.
pub proof fn lemma_def_use_hints_are_walks(s: &Superset, k: HintKey)
    ensures
        def_use_hints(s).contains(k) <==> exists|d: u64, reg: u16|
            (s.insn_at(d as int) matches Some(i) && i.writes(reg)) && #[trigger] walk_keys(
                d,
                walk_uses(s, d, reg, MAX_WALK_DEPTH),
            ).contains(k),
        def_use_hints(s).contains(k) ==> k.label == HintLabel::RegDefUse,
{
    if def_use_hints(s).contains(k) {
        let (d, reg) = choose|d: u64, reg: u16| #[trigger] walk_fires(s, d, reg, k);
        assert(walk_keys(d, walk_uses(s, d, reg, MAX_WALK_DEPTH)).contains(k));
    }
    if exists|d: u64, reg: u16|
        (s.insn_at(d as int) matches Some(i) && i.writes(reg)) && #[trigger] walk_keys(
            d,
            walk_uses(s, d, reg, MAX_WALK_DEPTH),
        ).contains(k) {
        let (d, reg) = choose|d: u64, reg: u16|
            (s.insn_at(d as int) matches Some(i) && i.writes(reg)) && #[trigger] walk_keys(
                d,
                walk_uses(s, d, reg, MAX_WALK_DEPTH),
            ).contains(k);
        assert(walk_fires(s, d, reg, k));
    }
}

proof fn lemma_walk_stays(s: &Superset, d: u64, reg: u16, depth: usize, a: nat, b: nat)
    requires
        a <= b,
        walk_ended(s, d, reg, depth, a),
    ensures
        walk_after(s, d, reg, depth, b) == walk_after(s, d, reg, depth, a),
    decreases b,
{
    if b > a {
        lemma_walk_stays(s, d, reg, depth, a, (b - 1) as nat);
    }
}

/// A walk that has ended found what `walk_uses` names.
proof fn lemma_walk_uses(s: &Superset, d: u64, reg: u16, depth: usize, steps: nat)
    requires
        walk_ended(s, d, reg, depth, steps),
    ensures
        walk_uses(s, d, reg, depth) == walk_after(s, d, reg, depth, steps).found,
{
    let c = choose|steps: nat| walk_ended(s, d, reg, depth, steps);
    assert(walk_ended(s, d, reg, depth, c));
    if c <= steps {
        lemma_walk_stays(s, d, reg, depth, c, steps);
    } else {
        lemma_walk_stays(s, d, reg, depth, steps, c);
    }
}

/// What holds of every state of the walk for `reg` from `d`: the visited
/// addresses are finitely many and decode, each that reads `reg` is a use
/// found; while the only successor `m` of `d` is unvisited, the stack holds
/// it alone, with all steps left; once it is visited, each successor of it
/// that reads `reg` is visited or waits on the stack one step further.
spec fn walk_inv(s: &Superset, d: u64, reg: u16, depth: usize, w: WalkState) -> bool {
    &&& w.visited.finite()
    &&& forall|v: u64| #[trigger] w.visited.contains(v) ==> (s.insn_at(v as int) matches Some(i) && (
    i.reads(reg) ==> w.found.contains(v)))
    &&& depth > 1 ==> forall|m: u64|
        #[trigger] only_clean_successor(s, d, m, reg) && !w.visited.contains(m) ==> w.stack.len() > 0
            && forall|j: int| 0 <= j < w.stack.len() ==> w.stack[j] == (m, depth)
    &&& depth > 1 ==> forall|m: u64, u: u64|
        #[trigger] def_use_through(s, d, m, u, reg) && w.visited.contains(m) ==> w.visited.contains(u)
            || exists|j: int| 0 <= j < w.stack.len() && #[trigger] w.stack[j] == (u, (depth - 1) as usize)
}

proof fn lemma_walk_inv_start(s: &Superset, d: u64, reg: u16, depth: usize)
    ensures
        walk_inv(s, d, reg, depth, walk_start(s, d, depth)),
{
    let w = walk_start(s, d, depth);
    assert forall|m: u64| #[trigger] only_clean_successor(s, d, m, reg) && !w.visited.contains(m) implies w.stack.len()
        > 0 && forall|j: int| 0 <= j < w.stack.len() ==> w.stack[j] == (m, depth) by {
        assert forall|j: int| 0 <= j < w.stack.len() implies w.stack[j] == (m, depth) by {
            assert(s.successors(d).contains(s.successors(d)[j]));
        }
    }
}

proof fn lemma_walk_inv_step(s: &Superset, d: u64, reg: u16, depth: usize, w: WalkState)
    requires
        walk_inv(s, d, reg, depth, w),
        w.stack.len() > 0,
    ensures
        walk_inv(s, d, reg, depth, walk_step(s, reg, w)),
{
    let w2 = walk_step(s, reg, w);
    let (addr, left) = w.stack.last();
    let rest = w.stack.drop_last();
    assert(w2.stack.len() >= rest.len());
    assert forall|j: int| 0 <= j < rest.len() implies #[trigger] w2.stack[j] == w.stack[j] by {}
    if depth > 1 {
        assert forall|m: u64| #[trigger] only_clean_successor(s, d, m, reg) && !w2.visited.contains(m) implies w2.stack.len()
            > 0 && forall|j: int| 0 <= j < w2.stack.len() ==> w2.stack[j] == (m, depth) by {
            assert(w.stack[w.stack.len() - 1] == (m, depth));
        }
        assert forall|m: u64, u: u64| #[trigger] def_use_through(s, d, m, u, reg) && w2.visited.contains(m) implies w2.visited.contains(u)
            || exists|j: int| 0 <= j < w2.stack.len() && #[trigger] w2.stack[j] == (u, (depth - 1) as usize) by {
            if !w2.visited.contains(u) {
                if w.visited.contains(m) {
                    let j = choose|j: int| 0 <= j < w.stack.len() && #[trigger] w.stack[j] == (u, (depth - 1) as usize);
                    if j < rest.len() {
                        assert(w2.stack[j] == w.stack[j]);
                    }
                } else {
                    assert(w.stack[w.stack.len() - 1] == (m, depth));
                    assert(addr == m && left == depth);
                    let succ = s.successors(m).map_values(|x: u64| (x, (left - 1) as usize));
                    assert(w2.stack == rest + succ);
                    let i = choose|i: int| 0 <= i < s.successors(m).len() && s.successors(m)[i] == u;
                    assert(w2.stack[rest.len() + i] == succ[i]);
                }
            }
        }
    }
}

proof fn lemma_walk_inv_after(s: &Superset, d: u64, reg: u16, depth: usize, steps: nat)
    ensures
        walk_inv(s, d, reg, depth, walk_after(s, d, reg, depth, steps)),
    decreases steps,
{
    if steps == 0 {
        lemma_walk_inv_start(s, d, reg, depth);
    } else {
        lemma_walk_inv_after(s, d, reg, depth, (steps - 1) as nat);
        let w = walk_after(s, d, reg, depth, (steps - 1) as nat);
        if w.stack.len() > 0 {
            lemma_walk_inv_step(s, d, reg, depth, w);
        }
    }
}

/// The walk ends: from any state it reaches, some later state has an empty
/// stack. Each step visits a new address, of which the buffer has finitely
/// many, or takes an entry off the stack.
proof fn lemma_walk_ends(s: &Superset, d: u64, reg: u16, depth: usize, steps: nat)
    requires
        s.wf(),
    ensures
        exists|f: nat| #[trigger] walk_ended(s, d, reg, depth, f),
    decreases s.len() - walk_after(s, d, reg, depth, steps).visited.len(), walk_after(
        s,
        d,
        reg,
        depth,
        steps,
    ).stack.len(),
{
    let w = walk_after(s, d, reg, depth, steps);
    lemma_walk_inv_after(s, d, reg, depth, steps);
    assert forall|x: u64| #[trigger] w.visited.contains(x) implies s.base_addr <= x < s.base_addr + s.len() by {}
    lemma_bounded_set_len(w.visited, s.base_addr as int, s.len() as nat);
    if w.stack.len() == 0 {
        assert(walk_ended(s, d, reg, depth, steps));
    } else {
        let w2 = walk_after(s, d, reg, depth, steps + 1);
        assert(w2 == walk_step(s, reg, w));
        lemma_walk_inv_after(s, d, reg, depth, steps + 1);
        assert forall|x: u64| #[trigger] w2.visited.contains(x) implies s.base_addr <= x < s.base_addr + s.len() by {}
        lemma_bounded_set_len(w2.visited, s.base_addr as int, s.len() as nat);
        let (addr, left) = w.stack.last();
        if w2.visited != w.visited {
            assert(!w.visited.contains(addr));
            assert(w2.visited == w.visited.insert(addr));
        } else {
            assert(w2.stack == w.stack.drop_last());
        }
        lemma_walk_ends(s, d, reg, depth, steps + 1);
    }
}

/// Register def-use through one clean instruction: when the instruction at
/// `d` writes `reg`, its only control-flow successor `m` neither reads nor
/// writes it, and `u`, reached from `m` by its branch target or its
/// fall-through, reads it, the walk from `d` of more than one step finds the
/// use at `u`, and the def-use hints fire at `d` and at `u`.
pub proof fn lemma_def_use_through_hinted(s: &Superset, d: u64, m: u64, u: u64, reg: u16)
    requires
        s.wf(),
        def_use_through(s, d, m, u, reg),
    ensures
        walk_uses(s, d, reg, MAX_WALK_DEPTH).contains(u),
        def_use_hints(s).contains(def_use_key(d)),
        def_use_hints(s).contains(def_use_key(u)),
{
    lemma_walk_ends(s, d, reg, MAX_WALK_DEPTH, 0);
    let f = choose|f: nat| #[trigger] walk_ended(s, d, reg, MAX_WALK_DEPTH, f);
    lemma_walk_uses(s, d, reg, MAX_WALK_DEPTH, f);
    lemma_walk_inv_after(s, d, reg, MAX_WALK_DEPTH, f);
    let w = walk_after(s, d, reg, MAX_WALK_DEPTH, f);
    assert(only_clean_successor(s, d, m, reg));
    assert(w.visited.contains(m));
    assert(w.visited.contains(u));
    assert(w.found.contains(u));
    let uses = walk_uses(s, d, reg, MAX_WALK_DEPTH);
    assert(walk_keys(d, uses).contains(def_use_key(u)));
    assert(walk_keys(d, uses).contains(def_use_key(d)));
    assert(walk_fires(s, d, reg, def_use_key(d)));
    assert(walk_fires(s, d, reg, def_use_key(u)));
}

/// Whether `regs` holds `reg`.
fn holds_reg(regs: &Vec<u16>, reg: u16) -> (r: bool)
    ensures
        r == regs@.contains(reg),
{
    let mut k: usize = 0;
    while k < regs.len()
        invariant
            0 <= k <= regs@.len(),
            forall|j: int| 0 <= j < k ==> regs@[j] != reg,
        decreases regs@.len() - k,
    {
        if regs[k] == reg {
            return true;
        }
        k = k + 1;
    }
    false
}

proof fn lemma_bounded_set_len(v: Set<u64>, lo: int, n: nat)
    requires
        v.finite(),
        forall|x: u64| #[trigger] v.contains(x) ==> lo <= x < lo + n,
    ensures
        v.len() <= n,
    decreases n,
{
    if n == 0 {
        assert(v =~= Set::<u64>::empty());
    } else {
        let top = lo + n - 1;
        let w = Set::new(|x: u64| v.contains(x) && x != top);
        assert(w =~= v.filter(|x: u64| x != top));
        lemma_bounded_set_len(w, lo, (n - 1) as nat);
        if 0 <= top <= u64::MAX && v.contains(top as u64) {
            assert(w =~= v.remove(top as u64));
        } else {
            assert(w =~= v);
        }
    }
}

/// Walks forward through the control flow from `def_addr` looking for a use
/// of `reg` before any instruction overwrites it, for at most `depth` steps.
/// Each use found fires a def-use hint at the def and at the use.
fn walk_forward_for_use(superset: &Superset, def_addr: u64, reg: u16, depth: usize, hints: &mut HintSet)
    requires
        superset.wf(),
        superset.ends_below_top(),
        old(hints).spans(superset),
        old(hints).wf(),
        superset.insn_at(def_addr as int) matches Some(i) && i.writes(reg),
    ensures
        final(hints).spans(superset),
        final(hints).wf(),
        final(hints)@ == old(hints)@.union(walk_keys(def_addr, walk_uses(superset, def_addr, reg, depth))),
        forall|k: HintKey|
            #[trigger] final(hints)@.contains(k) && !old(hints)@.contains(k) ==> def_use_hint_from(
                superset,
                k,
                def_addr,
                reg,
                depth as nat,
            ),
        depth > 0 ==> forall|u: u64|
            #[trigger] direct_def_use(superset, def_addr, u, reg) ==> final(hints)@.contains(
                def_use_key(def_addr),
            ) && final(hints)@.contains(def_use_key(u)),
        depth > 1 ==> forall|m: u64, u: u64|
            #[trigger] def_use_through(superset, def_addr, m, u, reg) ==> final(hints)@.contains(
                def_use_key(def_addr),
            ) && final(hints)@.contains(def_use_key(u)),
{
    let ghost n = superset.len();
    let ghost d = depth as nat;
    let mut visited: HashSet<u64> = HashSet::new();
    let succs = superset.successors_of(def_addr);
    let mut stack: Vec<(u64, usize)> = Vec::new();
    for k in 0..succs.len()
        invariant
            stack@.len() == k,
            forall|j: int| 0 <= j < k ==> #[trigger] stack@[j] == (succs@[j], depth),
    {
        stack.push((succs[k], depth));
    }
    let ghost mut steps: nat = 0;
    let ghost mut found: Set<u64> = Set::empty();
    proof {
        assert forall|j: int| 0 <= j < stack@.len() implies #[trigger] walk_entry_ok(
            superset,
            def_addr,
            reg,
            d,
            stack@[j],
        ) by {
            let p = seq![def_addr, succs@[j]];
            assert(superset.successors(p[0]).contains(p[1]));
            assert(clean_path(superset, reg, p));
        }
        assert(visited@ =~= Set::<u64>::empty());
        assert forall|u: u64| #[trigger] direct_def_use(superset, def_addr, u, reg) implies exists|j: int|
            0 <= j < stack@.len() && #[trigger] stack@[j] == (u, depth) by {
            let j = choose|j: int| 0 <= j < succs@.len() && succs@[j] == u;
            assert(stack@[j] == (u, depth));
        }
        assert(stack@ =~= succs@.map_values(|x: u64| (x, depth)));
        assert((WalkState { stack: stack@, visited: visited@, found }) =~= walk_start(superset, def_addr, depth));
        assert forall|m: u64| #[trigger] only_clean_successor(superset, def_addr, m, reg) && !visited@.contains(m)
            implies stack@.len() > 0 && forall|j: int| 0 <= j < stack@.len() ==> stack@[j] == (m, depth) by {
            assert forall|j: int| 0 <= j < stack@.len() implies stack@[j] == (m, depth) by {
                assert(succs@.contains(succs@[j]));
            }
            let j = choose|j: int| 0 <= j < succs@.len() && succs@[j] == m;
        }
        assert(hints@ =~= hints@.union(walk_keys(def_addr, found)));
    }
    let ghost old_hints = hints@;
    while stack.len() > 0
        invariant
            superset.wf(),
            superset.ends_below_top(),
            n == superset.len(),
            d == depth,
            hints.spans(superset),
            hints.wf(),
            superset.insn_at(def_addr as int) matches Some(i) && i.writes(reg),
            (WalkState { stack: stack@, visited: visited@, found }) == walk_after(superset, def_addr, reg, depth, steps),
            hints@ == old_hints.union(walk_keys(def_addr, found)),
            forall|k: HintKey|
                #[trigger] hints@.contains(k) && !old_hints.contains(k) ==> def_use_hint_from(
                    superset,
                    k,
                    def_addr,
                    reg,
                    d,
                ),
            forall|j: int|
                0 <= j < stack@.len() ==> #[trigger] walk_entry_ok(
                    superset,
                    def_addr,
                    reg,
                    d,
                    stack@[j],
                ),
            visited@.finite(),
            forall|v: u64|
                #[trigger] visited@.contains(v) ==> (superset.insn_at(v as int) matches Some(j) && (
                j.reads(reg) ==> hints@.contains(def_use_key(def_addr)) && hints@.contains(
                    def_use_key(v),
                ))),
            depth > 0 ==> forall|u: u64|
                #[trigger] direct_def_use(superset, def_addr, u, reg) ==> visited@.contains(u)
                    || exists|j: int| 0 <= j < stack@.len() && #[trigger] stack@[j] == (u, depth),
            depth > 1 ==> forall|m: u64|
                #[trigger] only_clean_successor(superset, def_addr, m, reg) && !visited@.contains(m)
                    ==> stack@.len() > 0 && forall|j: int| 0 <= j < stack@.len() ==> stack@[j] == (m, depth),
            depth > 1 ==> forall|m: u64, u: u64|
                #[trigger] def_use_through(superset, def_addr, m, u, reg) && visited@.contains(m)
                    ==> visited@.contains(u) || exists|j: int|
                    0 <= j < stack@.len() && #[trigger] stack@[j] == (u, (depth - 1) as usize),
        decreases n - visited@.len(), stack@.len(),
    {
        proof {
            assert forall|x: u64| #[trigger] visited@.contains(x) implies superset.base_addr <= x
                < superset.base_addr + n by {}
            lemma_bounded_set_len(visited@, superset.base_addr as int, n as nat);
        }
        let ghost before = stack@;
        let ghost prev = WalkState { stack: stack@, visited: visited@, found };
        let (addr, remaining) = stack.pop().unwrap();
        proof {
            steps = steps + 1;
            assert(before.last() == (addr, remaining));
            assert(stack@ =~= before.drop_last());
            assert(walk_after(superset, def_addr, reg, depth, steps) == walk_step(superset, reg, prev));
            assert(walk_entry_ok(superset, def_addr, reg, d, before[before.len() - 1]));
            assert forall|j: int| 0 <= j < stack@.len() implies #[trigger] walk_entry_ok(
                superset,
                def_addr,
                reg,
                d,
                stack@[j],
            ) by {
                assert(stack@[j] == before[j]);
            }
            if depth > 0 {
                assert forall|u: u64| #[trigger] direct_def_use(superset, def_addr, u, reg) implies visited@.contains(u)
                    || (u == addr && remaining == depth)
                    || exists|j: int| 0 <= j < stack@.len() && #[trigger] stack@[j] == (u, depth) by {
                    if !visited@.contains(u) {
                        let j = choose|j: int| 0 <= j < before.len() && #[trigger] before[j] == (u, depth);
                        if j < stack@.len() {
                            assert(stack@[j] == before[j]);
                        }
                    }
                }
            }
            if depth > 1 {
                assert forall|m: u64| #[trigger] only_clean_successor(superset, def_addr, m, reg) && !visited@.contains(m)
                    implies addr == m && remaining == depth && forall|j: int| 0 <= j < stack@.len() ==> stack@[j] == (m, depth) by {
                    assert(before[before.len() - 1] == (m, depth));
                    assert forall|j: int| 0 <= j < stack@.len() implies stack@[j] == (m, depth) by {
                        assert(stack@[j] == before[j]);
                    }
                }
                assert forall|m: u64, u: u64| #[trigger] def_use_through(superset, def_addr, m, u, reg) && visited@.contains(m)
                    implies visited@.contains(u) || (u == addr && remaining == depth - 1) || exists|j: int|
                    0 <= j < stack@.len() && #[trigger] stack@[j] == (u, (depth - 1) as usize) by {
                    if !visited@.contains(u) {
                        let j = choose|j: int| 0 <= j < before.len() && #[trigger] before[j] == (u, (depth - 1) as usize);
                        if j < stack@.len() {
                            assert(stack@[j] == before[j]);
                        }
                    }
                }
            }
        }
        if remaining == 0 {
            proof {
                assert((WalkState { stack: stack@, visited: visited@, found }) =~= walk_step(superset, reg, prev));
            }
            continue;
        }
        let insn = match superset.at(addr) {
            Some(i) => i,
            None => {
                proof {
                    assert((WalkState { stack: stack@, visited: visited@, found }) =~= walk_step(superset, reg, prev));
                }
                continue;
            },
        };
        let ghost path = choose|p: Seq<u64>|
            #[trigger] clean_path(superset, reg, p) && p[0] == def_addr && p.last() == addr && p.len()
                == d - remaining + 2;
        if !visited.insert(addr) {
            proof {
                assert(visited@ =~= prev.visited);
                assert((WalkState { stack: stack@, visited: visited@, found }) =~= walk_step(superset, reg, prev));
            }
            continue;
        }
        proof {
            assert forall|x: u64| #[trigger] visited@.contains(x) implies superset.base_addr <= x
                < superset.base_addr + n by {}
            lemma_bounded_set_len(visited@, superset.base_addr as int, n as nat);
        }
        if holds_reg(&insn.regs_read, reg) {
            let ghost mid = hints@;
            emit_hint(hints, def_addr, HintLabel::RegDefUse);
            emit_hint(hints, addr, HintLabel::RegDefUse);
            proof {
                assert(def_use_pair(superset, def_addr, addr, reg, d));
                assert forall|k: HintKey|
                    #[trigger] hints@.contains(k) && !old_hints.contains(k) implies def_use_hint_from(
                        superset,
                        k,
                        def_addr,
                        reg,
                        d,
                    ) by {
                    if !mid.contains(k) {
                        assert(def_use_pair(superset, def_addr, addr, reg, d));
                    }
                }
                let ghost f2 = found.insert(addr);
                assert(f2.contains(addr));
                assert forall|k: HintKey| #[trigger] hints@.contains(k) == old_hints.union(walk_keys(def_addr, f2)).contains(k) by {
                    if k == def_use_key(def_addr) || k == def_use_key(addr) {
                        assert(f2.contains(addr));
                    } else if walk_keys(def_addr, f2).contains(k) && k.source_addr == def_addr {
                        let u = choose|u: u64| #[trigger] f2.contains(u);
                    }
                }
                assert(hints@ =~= old_hints.union(walk_keys(def_addr, f2)));
                found = f2;
                assert((WalkState { stack: stack@, visited: visited@, found }) =~= walk_step(superset, reg, prev));
            }
            continue;
        }
        if holds_reg(&insn.regs_write, reg) {
            proof {
                assert((WalkState { stack: stack@, visited: visited@, found }) =~= walk_step(superset, reg, prev));
            }
            continue;
        }
        let next = superset.successors_of(addr);
        let ghost popped = stack@;
        for k in 0..next.len()
            invariant
                superset.wf(),
                superset.ends_below_top(),
                stack@.len() == popped.len() + k,
                forall|j: int| 0 <= j < popped.len() ==> #[trigger] stack@[j] == popped[j],
                forall|j: int|
                    0 <= j < k ==> #[trigger] stack@[popped.len() + j] == (next@[j], (remaining - 1) as usize),
                forall|j: int|
                    0 <= j < stack@.len() ==> #[trigger] walk_entry_ok(
                        superset,
                        def_addr,
                        reg,
                        d,
                        stack@[j],
                    ),
                0 < remaining <= d,
                next@ == superset.successors(addr),
                clean_path(superset, reg, path) && path[0] == def_addr && path.last() == addr
                    && path.len() == d - remaining + 2,
                superset.insn_at(addr as int) matches Some(j) && !j.reads(reg) && !j.writes(reg),
        {
            let ghost p2 = path.push(next@[k as int]);
            proof {
                assert(p2.last() == next@[k as int]);
                assert forall|i: int| 0 <= i < p2.len() - 1 implies #[trigger] superset.successors(
                    p2[i],
                ).contains(p2[i + 1]) by {
                    if i < path.len() - 1 {
                        assert(p2[i] == path[i] && p2[i + 1] == path[i + 1]);
                    } else {
                        assert(p2[i] == addr);
                    }
                }
                assert forall|i: int| 0 < i < p2.len() - 1 implies (superset.insn_at(
                    #[trigger] p2[i] as int,
                ) matches Some(j) && !j.reads(reg) && !j.writes(reg)) by {
                    if i < path.len() - 1 {
                        assert(p2[i] == path[i]);
                    }
                }
                assert(clean_path(superset, reg, p2));
            }
            stack.push((next[k], remaining - 1));
            proof {
                assert(walk_entry_ok(superset, def_addr, reg, d, stack@[stack@.len() - 1]));
            }
        }
        proof {
            let ghost pushed = superset.successors(addr).map_values(|x: u64| (x, (remaining - 1) as usize));
            assert forall|j: int| 0 <= j < stack@.len() implies #[trigger] stack@[j] == (popped + pushed)[j] by {
                if j >= popped.len() {
                    let i = j - popped.len();
                    assert(stack@[popped.len() + i] == (next@[i], (remaining - 1) as usize));
                }
            }
            assert(stack@ =~= popped + pushed);
            assert((WalkState { stack: stack@, visited: visited@, found }) =~= walk_step(superset, reg, prev));
            if depth > 1 {
                assert forall|m: u64, u: u64| #[trigger] def_use_through(superset, def_addr, m, u, reg)
                    && visited@.contains(m) implies visited@.contains(u) || exists|j: int|
                    0 <= j < stack@.len() && #[trigger] stack@[j] == (u, (depth - 1) as usize) by {
                    if !visited@.contains(u) {
                        if prev.visited.contains(m) {
                            let j = choose|j: int| 0 <= j < popped.len() && #[trigger] popped[j] == (u, (depth - 1) as usize);
                            assert(stack@[j] == popped[j]);
                        } else {
                            assert(only_clean_successor(superset, def_addr, m, reg));
                            assert(addr == m && remaining == depth);
                            let i = choose|i: int| 0 <= i < next@.len() && next@[i] == u;
                            assert(stack@[popped.len() + i] == pushed[i]);
                        }
                    }
                }
            }
            if depth > 0 {
                assert forall|u: u64| #[trigger] direct_def_use(superset, def_addr, u, reg) implies visited@.contains(u)
                    || exists|j: int| 0 <= j < stack@.len() && #[trigger] stack@[j] == (u, depth) by {
                    if !visited@.contains(u) {
                        let j = choose|j: int| 0 <= j < popped.len() && #[trigger] popped[j] == (u, depth);
                        assert(stack@[j] == popped[j]);
                    }
                }
            }
        }
    }
    proof {
        lemma_walk_uses(superset, def_addr, reg, depth, steps);
        if depth > 0 {
            assert forall|u: u64| #[trigger] direct_def_use(superset, def_addr, u, reg) implies hints@.contains(
                def_use_key(def_addr),
            ) && hints@.contains(def_use_key(u)) by {
                assert(visited@.contains(u));
            }
        }
    }
}

/// The walk for `reg` from `d` is among those taken before the one for the
/// `r`-th register written at offset `o`.
spec fn walked_before(s: &Superset, d: u64, reg: u16, o: int, r: int) -> bool {
    ||| d < s.base_addr + o
    ||| d == s.base_addr + o && (s.insn_at(d as int) matches Some(i) && exists|j: int|
        0 <= j < r && #[trigger] i.regs_write@[j] == reg)
}

/// The hints fired by the walks taken before the one for the `r`-th register
/// written at offset `o`.
spec fn fired_before(s: &Superset, o: int, r: int) -> Set<HintKey> {
    Set::new(
        |k: HintKey|
            exists|d: u64, reg: u16| #[trigger] walk_fires(s, d, reg, k) && walked_before(s, d, reg, o, r),
    )
}

/// Adds the register def-use hints of `superset`: for each register each
/// instruction writes, the hints of the walk from it.
fn extract_register_def_use(superset: &Superset, hints: &mut HintSet)
    requires
        superset.wf(),
        superset.ends_below_top(),
        old(hints).spans(superset),
        old(hints).wf(),
    ensures
        final(hints).spans(superset),
        final(hints).wf(),
        final(hints)@ == old(hints)@.union(def_use_hints(superset)),
        forall|k: HintKey|
            #[trigger] final(hints)@.contains(k) && !old(hints)@.contains(k) ==> def_use_hint(superset, k),
        forall|d: u64, u: u64, reg: u16|
            #[trigger] direct_def_use(superset, d, u, reg) ==> final(hints)@.contains(def_use_key(d))
                && final(hints)@.contains(def_use_key(u)),
        forall|d: u64, m: u64, u: u64, reg: u16|
            #[trigger] def_use_through(superset, d, m, u, reg) ==> final(hints)@.contains(def_use_key(d))
                && final(hints)@.contains(def_use_key(u)),
{
    let n = superset.instructions.len();
    let ghost old_hints = hints@;
    proof {
        assert(fired_before(superset, 0, 0) =~= Set::<HintKey>::empty());
        assert(hints@ =~= old_hints.union(fired_before(superset, 0, 0)));
    }
    for o in 0..n
        invariant
            n == superset.len(),
            superset.wf(),
            superset.ends_below_top(),
            hints.spans(superset),
            hints.wf(),
            hints@ == old_hints.union(fired_before(superset, o as int, 0)),
            old_hints.subset_of(hints@),
            forall|k: HintKey|
                #[trigger] hints@.contains(k) && !old_hints.contains(k) ==> def_use_hint(superset, k),
            forall|d: u64, u: u64, reg: u16|
                #[trigger] direct_def_use(superset, d, u, reg) && d < superset.base_addr + o ==> hints@.contains(
                    def_use_key(d),
                ) && hints@.contains(def_use_key(u)),
            forall|d: u64, mm: u64, u: u64, reg: u16|
                #[trigger] def_use_through(superset, d, mm, u, reg) && d < superset.base_addr + o ==> hints@.contains(
                    def_use_key(d),
                ) && hints@.contains(def_use_key(u)),
    {
        if let Some(def) = &superset.instructions[o] {
            let m = def.regs_write.len();
            proof {
                assert(superset.insn_at(superset.base_addr + o) == Some(*def));
            }
            for r in 0..m
                invariant
                    n == superset.len(),
                    superset.wf(),
                    superset.ends_below_top(),
                    hints.spans(superset),
                    hints.wf(),
                    o < n,
                    superset.instructions@[o as int] == Some(*def),
                    superset.insn_at(superset.base_addr + o) == Some(*def),
                    m == def.regs_write@.len(),
                    hints@ == old_hints.union(fired_before(superset, o as int, r as int)),
                    old_hints.subset_of(hints@),
                    forall|k: HintKey|
                        #[trigger] hints@.contains(k) && !old_hints.contains(k) ==> def_use_hint(superset, k),
                    forall|d: u64, u: u64, reg: u16|
                        #[trigger] direct_def_use(superset, d, u, reg) && (d < superset.base_addr + o || (d
                            == superset.base_addr + o && exists|i: int| 0 <= i < r && def.regs_write@[i] == reg))
                            ==> hints@.contains(def_use_key(d)) && hints@.contains(def_use_key(u)),
                    forall|d: u64, mm: u64, u: u64, reg: u16|
                        #[trigger] def_use_through(superset, d, mm, u, reg) && (d < superset.base_addr + o || (d
                            == superset.base_addr + o && exists|i: int| 0 <= i < r && def.regs_write@[i] == reg))
                            ==> hints@.contains(def_use_key(d)) && hints@.contains(def_use_key(u)),
            {
                let reg = def.regs_write[r];
                let ghost mid = hints@;
                proof {
                    assert(superset.insn_at(def.address as int) == Some(*def));
                    assert(def.regs_write@[r as int] == reg);
                }
                walk_forward_for_use(superset, def.address, reg, MAX_WALK_DEPTH, hints);
                proof {
                    assert forall|k: HintKey|
                        #[trigger] hints@.contains(k) && !old_hints.contains(k) implies def_use_hint(superset, k) by {
                        if !mid.contains(k) {
                            assert(def_use_hint_from(superset, k, def.address, reg, MAX_WALK_DEPTH as nat));
                        }
                    }
                    assert forall|d: u64, u: u64, rg: u16|
                        #[trigger] direct_def_use(superset, d, u, rg) && (d < superset.base_addr + o || (d
                            == superset.base_addr + o && exists|i: int| 0 <= i < r + 1 && def.regs_write@[i] == rg))
                            implies hints@.contains(def_use_key(d)) && hints@.contains(def_use_key(u)) by {
                        if d == superset.base_addr + o && rg == reg {
                            assert(direct_def_use(superset, def.address, u, reg));
                        }
                    }
                    assert forall|d: u64, mm: u64, u: u64, rg: u16|
                        #[trigger] def_use_through(superset, d, mm, u, rg) && (d < superset.base_addr + o || (d
                            == superset.base_addr + o && exists|i: int| 0 <= i < r + 1 && def.regs_write@[i] == rg))
                            implies hints@.contains(def_use_key(d)) && hints@.contains(def_use_key(u)) by {
                        if d == superset.base_addr + o && rg == reg {
                            assert(def_use_through(superset, def.address, mm, u, reg));
                        }
                    }
                    let ghost keys = walk_keys(def.address, walk_uses(superset, def.address, reg, MAX_WALK_DEPTH));
                    assert forall|k: HintKey| #[trigger] fired_before(superset, o as int, r + 1).contains(k)
                        == fired_before(superset, o as int, r as int).union(keys).contains(k) by {
                        if fired_before(superset, o as int, r + 1).contains(k) {
                            let (dd, rg) = choose|dd: u64, rg: u16| #[trigger] walk_fires(superset, dd, rg, k)
                                && walked_before(superset, dd, rg, o as int, r + 1);
                            if !walked_before(superset, dd, rg, o as int, r as int) {
                                let j = choose|j: int| 0 <= j < r + 1 && #[trigger] def.regs_write@[j] == rg;
                                assert(j == r);
                            }
                        }
                        if keys.contains(k) {
                            assert(walk_fires(superset, def.address, reg, k));
                            assert(def.regs_write@[r as int] == reg);
                            assert(walked_before(superset, def.address, reg, o as int, r + 1));
                        }
                        if fired_before(superset, o as int, r as int).contains(k) {
                            let (dd, rg) = choose|dd: u64, rg: u16| #[trigger] walk_fires(superset, dd, rg, k)
                                && walked_before(superset, dd, rg, o as int, r as int);
                            if dd == superset.base_addr + o {
                                let j = choose|j: int| 0 <= j < r && #[trigger] def.regs_write@[j] == rg;
                                assert(walked_before(superset, dd, rg, o as int, r + 1));
                            }
                        }
                    }
                    assert(hints@ =~= old_hints.union(fired_before(superset, o as int, r + 1)));
                }
            }
            proof {
                assert forall|d: u64, u: u64, reg: u16|
                    #[trigger] direct_def_use(superset, d, u, reg) && d < superset.base_addr + o + 1
                        implies hints@.contains(def_use_key(d)) && hints@.contains(def_use_key(u)) by {
                    if d == superset.base_addr + o {
                        let i = choose|i: int| 0 <= i < def.regs_write@.len() && def.regs_write@[i] == reg;
                    }
                }
                assert forall|d: u64, mm: u64, u: u64, reg: u16|
                    #[trigger] def_use_through(superset, d, mm, u, reg) && d < superset.base_addr + o + 1
                        implies hints@.contains(def_use_key(d)) && hints@.contains(def_use_key(u)) by {
                    if d == superset.base_addr + o {
                        let i = choose|i: int| 0 <= i < def.regs_write@.len() && def.regs_write@[i] == reg;
                    }
                }
                assert forall|k: HintKey| #[trigger] fired_before(superset, o + 1, 0).contains(k)
                    == fired_before(superset, o as int, m as int).contains(k) by {
                    if fired_before(superset, o + 1, 0).contains(k) {
                        let (dd, rg) = choose|dd: u64, rg: u16| #[trigger] walk_fires(superset, dd, rg, k)
                            && walked_before(superset, dd, rg, o + 1, 0);
                        if dd == superset.base_addr + o {
                            let j = choose|j: int| 0 <= j < def.regs_write@.len() && #[trigger] def.regs_write@[j] == rg;
                            assert(walked_before(superset, dd, rg, o as int, m as int));
                        }
                    }
                    if fired_before(superset, o as int, m as int).contains(k) {
                        let (dd, rg) = choose|dd: u64, rg: u16| #[trigger] walk_fires(superset, dd, rg, k)
                            && walked_before(superset, dd, rg, o as int, m as int);
                        assert(walked_before(superset, dd, rg, o + 1, 0));
                    }
                }
                assert(hints@ =~= old_hints.union(fired_before(superset, o + 1, 0)));
            }
        } else {
            proof {
                assert forall|d: u64, u: u64, reg: u16|
                    #[trigger] direct_def_use(superset, d, u, reg) && d < superset.base_addr + o + 1
                        implies hints@.contains(def_use_key(d)) && hints@.contains(def_use_key(u)) by {
                    if d == superset.base_addr + o {
                        assert(superset.insn_at(d as int) is None);
                    }
                }
                assert forall|d: u64, mm: u64, u: u64, reg: u16|
                    #[trigger] def_use_through(superset, d, mm, u, reg) && d < superset.base_addr + o + 1
                        implies hints@.contains(def_use_key(d)) && hints@.contains(def_use_key(u)) by {
                    if d == superset.base_addr + o {
                        assert(superset.insn_at(d as int) is None);
                    }
                }
                assert forall|k: HintKey| #[trigger] fired_before(superset, o + 1, 0).contains(k)
                    == fired_before(superset, o as int, 0).contains(k) by {
                    if fired_before(superset, o + 1, 0).contains(k) {
                        let (dd, rg) = choose|dd: u64, rg: u16| #[trigger] walk_fires(superset, dd, rg, k)
                            && walked_before(superset, dd, rg, o + 1, 0);
                        if dd == superset.base_addr + o {
                            assert(superset.insn_at(dd as int) is None);
                        }
                        assert(walked_before(superset, dd, rg, o as int, 0));
                    }
                    if fired_before(superset, o as int, 0).contains(k) {
                        let (dd, rg) = choose|dd: u64, rg: u16| #[trigger] walk_fires(superset, dd, rg, k)
                            && walked_before(superset, dd, rg, o as int, 0);
                        assert(walked_before(superset, dd, rg, o + 1, 0));
                    }
                }
                assert(hints@ =~= old_hints.union(fired_before(superset, o + 1, 0)));
            }
        }
    }
    proof {
        assert forall|k: HintKey| #[trigger] fired_before(superset, n as int, 0).contains(k)
            == def_use_hints(superset).contains(k) by {
            if def_use_hints(superset).contains(k) {
                let (dd, rg) = choose|dd: u64, rg: u16| #[trigger] walk_fires(superset, dd, rg, k);
                assert(walked_before(superset, dd, rg, n as int, 0));
            }
        }
        assert(fired_before(superset, n as int, 0) =~= def_use_hints(superset));
    }
}

/// A weak control-flow hint fires at `a` exactly when a direct jump or call
/// sits at `a` and its target decodes to an instruction that does not
/// overlap it.
pub proof fn lemma_weak_hint_meaning(s: &Superset, hs: Set<HintKey>, a: u64)
    requires
        s.wf(),
        hs == convergence_hints(s).union(weak_hints(s)).union(crossing_hints(s)).union(def_use_hints(s)),
    ensures
        hs.contains(HintKey { source_addr: a, label: HintLabel::CtrlWeak }) <==> (s.insn_at(a as int) matches Some(i)
            && (i.branches() && (i.branch_target matches Some(t) && (s.insn_at(t as int) matches Some(j)
            && !(a < t + j.size && t < a + i.size))))),
{
    let kw = HintKey { source_addr: a, label: HintLabel::CtrlWeak };
    lemma_def_use_hints_are_walks(s, kw);
    if hs.contains(kw) {
        if convergence_hints(s).contains(kw) {
            let o = choose|o: int| 0 <= o < s.len() && #[trigger] convergence_at(s, o) && kw == convergence_key(s, o);
            assert(false);
        } else if weak_hints(s).contains(kw) {
            let o = choose|o: int| 0 <= o < s.len() && #[trigger] weak_at(s, o) && kw == weak_key(s, o);
            assert(s.instructions@[o] == Some(insn(s, o)));
            assert(s.insn_at(a as int) == Some(insn(s, o)));
        } else if hints_upto(s.len(), |o: int| crossing_at(s, o), |o: int| crossing_key(s, o)).contains(kw) {
            let o = choose|o: int| 0 <= o < s.len() && #[trigger] crossing_at(s, o) && kw == crossing_key(s, o);
            assert(false);
        } else if crossing_hints(s).contains(kw) {
            let o = choose|o: int| 0 <= o < s.len() && #[trigger] crossing_at(s, o) && kw == crossed_key(s, o);
            assert(false);
        }
    }
    if s.insn_at(a as int) matches Some(i) && (i.branches() && (i.branch_target matches Some(t) && (s.insn_at(t as int) matches Some(j)
            && !(a < t + j.size && t < a + i.size)))) {
        let o = a - s.base_addr;
        assert(s.instructions@[o] == Some(insn(s, o)));
        assert(weak_at(s, o));
        assert(weak_key(s, o) == kw);
        let fires = |p: int| weak_at(s, p);
        let key = |p: int| weak_key(s, p);
        assert(0 <= o < s.len() && fires(o) && kw == key(o));
        assert(hints_upto(s.len(), fires, key).contains(kw));
        assert(weak_hints(s).contains(kw));
    }
}

/// Every control-flow crossing hint sits at a jump or call and carries the
/// label of that branch's own displacement width: a 2-byte branch the 1-byte
/// label, a 3- or 4-byte branch the 2-byte label, any other the 4-byte
/// label. The branch either crosses, its direct target being the end of
/// another branch, or is crossed into, another branch targeting its end.
pub proof fn lemma_crossing_hint_meaning(s: &Superset, hs: Set<HintKey>, k: HintKey)
    requires
        s.wf(),
        hs == convergence_hints(s).union(weak_hints(s)).union(crossing_hints(s)).union(def_use_hints(s)),
        hs.contains(k),
        k.label == HintLabel::CtrlCrossRel || k.label == HintLabel::CtrlCrossNear || k.label
            == HintLabel::CtrlCrossLong,
    ensures
        s.insn_at(k.source_addr as int) matches Some(i) && i.branches() && k.label == (if i.size == 2 {
            HintLabel::CtrlCrossRel
        } else if i.size == 3 || i.size == 4 {
            HintLabel::CtrlCrossNear
        } else {
            HintLabel::CtrlCrossLong
        }) && ((i.branch_target matches Some(t) && exists|b: u64|
            b != k.source_addr && (#[trigger] s.insn_at(b as int) matches Some(j) && j.branches() && b + j.size
                == t)) || exists|c: u64|
            c != k.source_addr && (#[trigger] s.insn_at(c as int) matches Some(j) && j.branches()
                && j.branch_target == Some((k.source_addr + i.size) as u64))),
{
    lemma_def_use_hints_are_walks(s, k);
    if convergence_hints(s).contains(k) {
        let o = choose|o: int| 0 <= o < s.len() && #[trigger] convergence_at(s, o) && k == convergence_key(s, o);
        assert(false);
    } else if weak_hints(s).contains(k) {
        let o = choose|o: int| 0 <= o < s.len() && #[trigger] weak_at(s, o) && k == weak_key(s, o);
        assert(false);
    } else if hints_upto(s.len(), |o: int| crossing_at(s, o), |o: int| crossing_key(s, o)).contains(k) {
        let o = choose|o: int| 0 <= o < s.len() && #[trigger] crossing_at(s, o) && k == crossing_key(s, o);
        let t = target(s, o);
        lemma_last_ending_bounds(s, t as int, s.len());
        let c = crossed(s, o);
        assert(s.instructions@[o] == Some(insn(s, o)));
        assert(s.instructions@[c] == Some(insn(s, c)));
        let b = (s.base_addr + c) as u64;
        assert(s.insn_at(b as int) == Some(insn(s, c)));
        assert(b != k.source_addr);
    } else if crossing_hints(s).contains(k) {
        let o = choose|o: int| 0 <= o < s.len() && #[trigger] crossing_at(s, o) && k == crossed_key(s, o);
        let t = target(s, o);
        lemma_last_ending_bounds(s, t as int, s.len());
        let c = crossed(s, o);
        assert(s.instructions@[o] == Some(insn(s, o)));
        assert(s.instructions@[c] == Some(insn(s, c)));
        let b = (s.base_addr + o) as u64;
        assert(s.insn_at(b as int) == Some(insn(s, o)));
        assert(s.insn_at(k.source_addr as int) == Some(insn(s, c)));
        assert(b != k.source_addr);
    } else {
        assert(false);
    }
}

/// Runs every hint extractor over `superset`: control-flow convergence, weak
/// control flow, control-flow crossing and register def-use.
pub fn extract_all_hints(superset: &Superset) -> (hints: HintSet)
    requires
        superset.wf(),
        superset.ends_below_top(),
    ensures
        hints.spans(superset),
        hints.wf(),
        hints@ == convergence_hints(superset).union(weak_hints(superset)).union(
            crossing_hints(superset),
        ).union(def_use_hints(superset)),
        forall|k: HintKey|
            k.label != HintLabel::RegDefUse ==> (#[trigger] hints@.contains(k) <==> convergence_hints(
                superset,
            ).union(weak_hints(superset)).union(crossing_hints(superset)).contains(k)),
        forall|k: HintKey|
            #[trigger] hints@.contains(k) && k.label == HintLabel::RegDefUse ==> def_use_hint(superset, k),
        forall|d: u64, u: u64, reg: u16|
            #[trigger] direct_def_use(superset, d, u, reg) ==> hints@.contains(def_use_key(d))
                && hints@.contains(def_use_key(u)),
        forall|d: u64, m: u64, u: u64, reg: u16|
            #[trigger] def_use_through(superset, d, m, u, reg) ==> hints@.contains(def_use_key(d))
                && hints@.contains(def_use_key(u)),
        forall|a: u64|
            #[trigger] hints@.contains(HintKey { source_addr: a, label: HintLabel::CtrlWeak }) <==> (
            superset.insn_at(a as int) matches Some(i) && (i.branches() && (i.branch_target matches Some(
                t,
            ) && (superset.insn_at(t as int) matches Some(j) && !(a < t + j.size && t < a + i.size))))),
        forall|k: HintKey|
            #[trigger] hints@.contains(k) && (k.label == HintLabel::CtrlCrossRel || k.label
                == HintLabel::CtrlCrossNear || k.label == HintLabel::CtrlCrossLong) ==> (superset.insn_at(
                k.source_addr as int,
            ) matches Some(i) && i.branches() && k.label == (if i.size == 2 {
                HintLabel::CtrlCrossRel
            } else if i.size == 3 || i.size == 4 {
                HintLabel::CtrlCrossNear
            } else {
                HintLabel::CtrlCrossLong
            })),
{
    let mut hints = HintSet::new(superset.base_addr, superset.instructions.len());
    extract_control_flow_convergence(superset, &mut hints);
    extract_weak_control_flow(superset, &mut hints);
    extract_control_flow_crossing(superset, &mut hints);
    let ghost structural = hints@;
    proof {
        assert(structural =~= convergence_hints(superset).union(weak_hints(superset)).union(
            crossing_hints(superset),
        ));
        assert forall|k: HintKey| #[trigger] structural.contains(k) implies k.label != HintLabel::RegDefUse by {
            if convergence_hints(superset).contains(k) {
                let o = choose|o: int| 0 <= o < superset.len() && #[trigger] convergence_at(superset, o) && k == convergence_key(superset, o);
            } else if weak_hints(superset).contains(k) {
                let o = choose|o: int| 0 <= o < superset.len() && #[trigger] weak_at(superset, o) && k == weak_key(superset, o);
            } else if hints_upto(superset.len(), |o: int| crossing_at(superset, o), |o: int| crossing_key(superset, o)).contains(k) {
                let o = choose|o: int| 0 <= o < superset.len() && #[trigger] crossing_at(superset, o) && k == crossing_key(superset, o);
            } else {
                let o = choose|o: int| 0 <= o < superset.len() && #[trigger] crossing_at(superset, o) && k == crossed_key(superset, o);
            }
        }
    }
    extract_register_def_use(superset, &mut hints);
    proof {
        assert forall|k: HintKey| #[trigger] hints@.contains(k) && k.label == HintLabel::RegDefUse implies def_use_hint(superset, k) by {
            if structural.contains(k) {
                assert(false);
            }
        }
        assert forall|k: HintKey| k.label != HintLabel::RegDefUse implies (#[trigger] hints@.contains(k) <==> structural.contains(k)) by {
            if hints@.contains(k) && !structural.contains(k) {
                assert(def_use_hint(superset, k));
            }
        }
        assert forall|a: u64|
            #[trigger] hints@.contains(HintKey { source_addr: a, label: HintLabel::CtrlWeak }) <==> (
            superset.insn_at(a as int) matches Some(i) && (i.branches() && (i.branch_target matches Some(
                t,
            ) && (superset.insn_at(t as int) matches Some(j) && !(a < t + j.size && t < a + i.size))))) by {
            lemma_weak_hint_meaning(superset, hints@, a);
        }
        assert forall|k: HintKey|
            #[trigger] hints@.contains(k) && (k.label == HintLabel::CtrlCrossRel || k.label
                == HintLabel::CtrlCrossNear || k.label == HintLabel::CtrlCrossLong) implies (superset.insn_at(
                k.source_addr as int,
            ) matches Some(i) && i.branches() && k.label == (if i.size == 2 {
                HintLabel::CtrlCrossRel
            } else if i.size == 3 || i.size == 4 {
                HintLabel::CtrlCrossNear
            } else {
                HintLabel::CtrlCrossLong
            })) by {
            lemma_crossing_hint_meaning(superset, hints@, k);
        }
    }
    hints
}

} // verus!
