use probdisasm::superset::{
    convert_insn, extract_branch_target, DecodedDetail, DecodedInsn, Superset, X86Engine, GROUP_CALL,
    GROUP_JUMP, GROUP_RET,
};

#[test]
fn decodes_every_offset() {
    // 0: eb 02  jmp 0x4 ; 2: nop ; 3: nop ; 4: ret
    let bytes: &[u8] = &[0xEB, 0x02, 0x90, 0x90, 0xC3];
    let s = Superset::new(0x1000, bytes).unwrap();
    assert_eq!(s.base_addr, 0x1000);
    assert_eq!(s.bytes, bytes.to_vec());
    assert_eq!(s.instructions.len(), bytes.len());
    let jmp = s.at(0x1000).unwrap();
    assert_eq!(jmp.address, 0x1000);
    assert_eq!(jmp.size, 2);
    assert_eq!(jmp.mnemonic, "jmp");
    assert_eq!(jmp.branch_target, Some(0x1004));
    assert!(jmp.is_jump() && jmp.is_branch() && !jmp.is_call() && !jmp.is_ret());
    assert!(jmp.has_group(GROUP_JUMP));
    let nop = s.at(0x1002).unwrap();
    assert_eq!(nop.mnemonic, "nop");
    assert_eq!(nop.op_str, "");
    assert_eq!(nop.branch_target, None);
    assert!(s.at(0x1004).unwrap().has_group(GROUP_RET));
    assert!(s.at(0x0fff).is_none());
    assert!(s.at(0x1005).is_none());
}

#[test]
fn from_bytes_matches_new() {
    let bytes: &[u8] = &[0x90, 0xC3];
    let a = Superset::new(0, bytes).unwrap();
    let b = Superset::from_bytes(0, bytes).unwrap();
    assert_eq!(a.instructions.len(), b.instructions.len());
    assert_eq!(a.at(1).unwrap().mnemonic, b.at(1).unwrap().mnemonic);
}

#[test]
fn disassemble_replaces_contents() {
    let mut s = Superset::new(0, &[0x90]).unwrap();
    s.disassemble(0x2000, &[0xC3, 0x90, 0x90]).unwrap();
    assert_eq!(s.base_addr, 0x2000);
    assert_eq!(s.instructions.len(), 3);
    assert!(s.at(0x2000).unwrap().is_ret());
}

#[test]
fn successors_of_jumps_calls_and_returns() {
    let s = Superset::new(0, &[0xEB, 0x02, 0x90, 0x90, 0xC3]).unwrap();
    assert_eq!(s.successors_of(0), vec![4]);
    assert_eq!(s.successors_of(2), vec![3]);
    assert_eq!(s.successors_of(4), Vec::<u64>::new());
    assert_eq!(s.successors_of(100), Vec::<u64>::new());

    // 0: 74 01  je 0x3 : target then fall-through
    let s = Superset::new(0, &[0x74, 0x01, 0x90, 0x90]).unwrap();
    assert_eq!(s.successors_of(0), vec![3, 2]);

    // 0: e8 00 00 00 00  call 0x5 : calls take the fall-through only
    let s = Superset::new(0, &[0xE8, 0x00, 0x00, 0x00, 0x00, 0x90]).unwrap();
    let call = s.at(0).unwrap();
    assert!(call.is_call() && call.has_group(GROUP_CALL) && call.is_branch());
    assert_eq!(call.branch_target, Some(5));
    assert_eq!(s.successors_of(0), vec![5]);
}

#[test]
fn undecodable_bytes_have_no_instruction() {
    // 0x06 (push es) is invalid in 64-bit mode.
    let s = Superset::new(0, &[0x06]).unwrap();
    assert!(s.at(0).is_none());
    assert_eq!(s.valid_count(), 0);
    assert_eq!(s.invalid_count(), 1);
}

#[test]
fn valid_and_invalid_counts_partition_offsets() {
    let bytes: &[u8] = &[0xEB, 0x02, 0x06, 0x90, 0xC3, 0x0F];
    let s = Superset::new(0, bytes).unwrap();
    assert_eq!(s.valid_count() + s.invalid_count(), bytes.len());
    assert_eq!(s.iter_valid().len(), s.valid_count());
    let addrs: Vec<u64> = s.iter_valid().iter().map(|i| i.address).collect();
    let mut sorted = addrs.clone();
    sorted.sort();
    assert_eq!(addrs, sorted);
}

#[test]
fn disassemble_with_the_kept_engine_replaces_contents() {
    let bytes: &[u8] = &[0xEB, 0x02, 0x90, 0xC3];
    let engine = X86Engine::new().expect("engine");
    let mut s = Superset::with_engine(engine);
    assert_eq!(s.base_addr, 0);
    assert!(s.instructions.is_empty());
    assert!(s.disassemble(0x2000, &[0x90, 0x90]).is_ok());
    assert!(s.disassemble(0x1000, bytes).is_ok());
    let t = Superset::new(0x1000, bytes).unwrap();
    assert_eq!(s.base_addr, 0x1000);
    assert_eq!(s.bytes, bytes.to_vec());
    assert_eq!(s.instructions.len(), 4);
    for a in 0x1000..0x1004u64 {
        assert_eq!(s.at(a).map(|i| (i.size, i.mnemonic.clone())), t.at(a).map(|i| (i.size, i.mnemonic.clone())));
    }
    assert_eq!(s.successors_of(0x1000), vec![0x1004]);
    assert!(s.at(0x2000).is_none());
}

#[test]
fn decoded_lengths_stay_within_the_bytes() {
    // A 5-byte jump cut short after 3 bytes decodes at no offset that needs
    // the missing bytes.
    let bytes: &[u8] = &[0xE9, 0x01, 0x00];
    let s = Superset::new(0, bytes).unwrap();
    for i in s.iter_valid() {
        assert!(i.size >= 1 && i.size <= 15);
        assert!(i.address + i.size as u64 <= bytes.len() as u64);
    }
    assert!(s.at(0).is_none());
}

#[test]
fn branch_target_is_the_first_immediate_of_a_jump_or_call() {
    let imms = Some(vec![None, Some(0x40), Some(0x80)]);
    assert_eq!(extract_branch_target(&vec![GROUP_JUMP as u8], &imms), Some(0x40));
    assert_eq!(extract_branch_target(&vec![7, GROUP_CALL as u8], &imms), Some(0x40));
    assert_eq!(extract_branch_target(&vec![GROUP_RET as u8], &imms), None);
    assert_eq!(extract_branch_target(&vec![GROUP_JUMP as u8], &None), None);
    assert_eq!(extract_branch_target(&vec![GROUP_JUMP as u8], &Some(vec![None])), None);
    assert_eq!(extract_branch_target(&vec![GROUP_JUMP as u8], &Some(vec![Some(-1)])), Some(u64::MAX));
}

#[test]
fn converted_instruction_keeps_what_capstone_reported() {
    let summary = DecodedInsn {
        address: 0x100,
        len: 2,
        mnemonic: "jne".to_string(),
        op_str: "0x110".to_string(),
    };
    let detail = DecodedDetail {
        groups: vec![GROUP_JUMP as u8],
        regs_read: vec![25],
        regs_write: vec![],
        x86_immediates: Some(vec![Some(0x110)]),
    };
    let i = convert_insn(summary, Some(detail));
    assert_eq!((i.address, i.size), (0x100, 2));
    assert_eq!(i.mnemonic, "jne");
    assert_eq!(i.op_str, "0x110");
    assert_eq!(i.regs_read, vec![25]);
    assert!(i.regs_write.is_empty());
    assert_eq!(i.branch_target, Some(0x110));
    let bare = convert_insn(
        DecodedInsn { address: 7, len: 1, mnemonic: "nop".to_string(), op_str: String::new() },
        None,
    );
    assert!(bare.groups.is_empty() && bare.regs_read.is_empty() && bare.branch_target.is_none());
    assert_eq!(bare.size, 1);
}
