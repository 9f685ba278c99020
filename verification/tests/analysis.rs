use probdisasm::analysis::{build_predecessor_map, occluding_addrs, offset_of, ReachingHints};
use probdisasm::hints::{extract_all_hints, HintKey, HintLabel, HintSet};
use probdisasm::superset::Superset;

#[test]
fn offset_of_range() {
    let s = Superset::new(0x400, &[0x90, 0x90, 0xC3]).unwrap();
    assert_eq!(offset_of(&s, 0x400), Some(0));
    assert_eq!(offset_of(&s, 0x402), Some(2));
    assert_eq!(offset_of(&s, 0x403), None);
    assert_eq!(offset_of(&s, 0x3ff), None);
}

#[test]
fn occluding_addrs_overlap_and_symmetry() {
    // 0: b8 01 00 00 00  mov eax, 1 ; 5: nop
    let s = Superset::new(0, &[0xB8, 0x01, 0x00, 0x00, 0x00, 0x90]).unwrap();
    let peers = occluding_addrs(&s, 0);
    assert!(!peers.contains(&0));
    assert!(!peers.contains(&5));
    for &a in &peers {
        let j = s.at(a).unwrap();
        assert!(a < 5 && 0 < a + j.size as u64);
    }
    for a in 0..6u64 {
        for b in 0..6u64 {
            if s.at(a).is_some() && s.at(b).is_some() {
                assert_eq!(occluding_addrs(&s, a).contains(&b), occluding_addrs(&s, b).contains(&a));
            }
        }
    }
    let mut sorted = peers.clone();
    sorted.sort();
    assert_eq!(peers, sorted);
    assert!(occluding_addrs(&s, 40).is_empty());
}

#[test]
fn predecessors_are_reverse_successors() {
    let s = Superset::new(0x10, &[0xEB, 0x02, 0x90, 0x90, 0xC3, 0x74, 0xFD]).unwrap();
    let preds = build_predecessor_map(&s);
    assert!(preds[&0x14].contains(&0x10));
    assert!(preds[&0x14].contains(&0x13));
    for q in 0x0..0x30u64 {
        for p in 0x10..0x17u64 {
            assert_eq!(
                preds.get(&q).map_or(false, |v| v.contains(&p)),
                s.successors_of(p).contains(&q)
            );
        }
    }
    for v in preds.values() {
        assert!(!v.is_empty());
        assert!(v.windows(2).all(|w| w[0] <= w[1]));
    }
}

#[test]
fn predecessors_include_targets_outside_the_buffer() {
    // 0x10: eb 10  jmp 0x22, past the end of the buffer
    let s = Superset::new(0x10, &[0xEB, 0x10]).unwrap();
    let preds = build_predecessor_map(&s);
    assert_eq!(preds.get(&0x22), Some(&vec![0x10]));
}

#[test]
fn forward_propagation_reaches_a_fixed_point() {
    // 0x0: e9 07 00 00 00  jmp 0xc ; 0x5: nop ; 0x6: e9 01 00 00 00  jmp 0xc ; 0xb: nop ; 0xc: nop
    let bytes: &[u8] = &[
        0xE9, 0x07, 0x00, 0x00, 0x00, 0x90, 0xE9, 0x01, 0x00, 0x00, 0x00, 0x90, 0x90,
    ];
    let s = Superset::new(0, bytes).unwrap();
    let hints = extract_all_hints(&s);
    let data: Vec<bool> = s.instructions.iter().map(|i| i.is_none()).collect();
    let mut reaching = ReachingHints::new(bytes.len());
    let first = reaching.propagate_forward(&s, &hints, &data);
    assert!(first.iter().any(|g| *g));
    // The hint fired at the first jump reaches its target.
    let key = HintKey { source_addr: 0, label: HintLabel::CtrlConvLong };
    assert!(reaching.reaching_at(0).contains(&key));
    assert!(reaching.reaching_at(0xc).contains(&key));
    let mut rounds = 0;
    loop {
        let grew = reaching.propagate_forward(&s, &hints, &data);
        rounds += 1;
        if !grew.iter().any(|g| *g) || rounds > 100 {
            break;
        }
    }
    // Closed: each byte holds its fired hints and passes its set on.
    for o in 0..bytes.len() {
        if data[o] {
            assert!(reaching.reaching_at(o).is_empty());
            continue;
        }
        for l in hints.labels_at(o) {
            assert!(reaching.reaching_at(o).contains(&HintKey { source_addr: o as u64, label: *l }));
        }
        for succ in s.successors_of(o as u64) {
            if let Some(m) = offset_of(&s, succ) {
                if !data[m] {
                    for k in reaching.reaching_at(o) {
                        assert!(reaching.reaching_at(m).contains(k));
                    }
                }
            }
        }
    }
}

#[test]
fn forward_propagation_skips_definitely_data() {
    let bytes: &[u8] = &[0xEB, 0x04, 0x90, 0xEB, 0x01, 0x90, 0x90];
    let s = Superset::new(0, bytes).unwrap();
    let hints = extract_all_hints(&s);
    let data = vec![true; bytes.len()];
    let mut reaching = ReachingHints::new(bytes.len());
    let grew = reaching.propagate_forward(&s, &hints, &data);
    assert!(grew.iter().all(|g| !*g));
    for o in 0..bytes.len() {
        assert!(reaching.reaching_at(o).is_empty());
    }
}

#[test]
fn hint_set_insert_contains_keys() {
    let mut h = HintSet::new(0x100, 4);
    let k = HintKey { source_addr: 0x102, label: HintLabel::CtrlWeak };
    assert!(!h.contains_key(&k));
    h.insert(k);
    h.insert(k);
    assert!(h.contains_key(&k));
    assert!(!h.contains_key(&HintKey { source_addr: 0x102, label: HintLabel::RegDefUse }));
    assert!(!h.contains_key(&HintKey { source_addr: 0x200, label: HintLabel::CtrlWeak }));
    assert_eq!(h.keys(), vec![k]);
    assert_eq!(h.labels_at(2), &vec![HintLabel::CtrlWeak]);
}

#[test]
fn hint_set_keys_by_address_once_each() {
    let mut h = HintSet::new(0x100, 4);
    let a = HintKey { source_addr: 0x103, label: HintLabel::CtrlWeak };
    let b = HintKey { source_addr: 0x101, label: HintLabel::RegDefUse };
    let c = HintKey { source_addr: 0x101, label: HintLabel::CtrlWeak };
    h.insert(a);
    h.insert(b);
    h.insert(c);
    h.insert(b);
    assert_eq!(h.keys(), vec![b, c, a]);
}
