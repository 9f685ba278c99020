//! The superset: one decoding attempt at every byte offset of a code buffer.
use capstone::arch::x86::ArchMode;
use capstone::arch::x86::X86OperandType::Imm;
use capstone::arch::BuildsCapstone;
use capstone::arch::DetailsArchInsn;
use capstone::Capstone;
use vstd::prelude::*;
use vstd::slice::slice_subrange;
use vstd::slice::slice_to_vec;

verus! {

#[verifier::external_type_specification]
#[verifier::external_body]
pub struct ExCapstone(capstone::Capstone);

#[verifier::external_type_specification]
#[verifier::external_body]
pub struct ExCapstoneError(capstone::Error);

/// Capstone's group id of jump instructions (`CS_GRP_JUMP`).
pub const GROUP_JUMP: u32 = 1;

/// Capstone's group id of call instructions (`CS_GRP_CALL`).
pub const GROUP_CALL: u32 = 2;

/// Capstone's group id of return instructions (`CS_GRP_RET`).
pub const GROUP_RET: u32 = 3;

/// The longest valid x86 instruction, in bytes.
pub const MAX_X86_INSN_LEN: u64 = 15;

/// A decoded instruction, reduced to the facts the analysis reads.
#[derive(Debug, Clone)]
pub struct Instruction {
    /// Address of the instruction.
    pub address: u64,
    /// Length of the instruction in bytes.
    pub size: u8,
    /// Mnemonic, such as `jmp`.
    pub mnemonic: String,
    /// Operand text.
    pub op_str: String,
    /// Registers the instruction reads.
    pub regs_read: Vec<u16>,
    /// Registers the instruction writes.
    pub regs_write: Vec<u16>,
    /// Capstone groups the instruction belongs to.
    pub groups: Vec<u8>,
    /// Immediate target of a direct jump or call.
    pub branch_target: Option<u64>,
}

/// What capstone reports of the first instruction it decodes from a buffer.
pub struct DecodedInsn {
    /// Address of the instruction.
    pub address: u64,
    /// Number of bytes of the instruction.
    pub len: usize,
    /// Mnemonic, empty where capstone gives none.
    pub mnemonic: String,
    /// Operand text, empty where capstone gives none.
    pub op_str: String,
}

impl View for DecodedInsn {
    type V = (u64, usize, Seq<char>, Seq<char>);

    open spec fn view(&self) -> Self::V {
        (self.address, self.len, self.mnemonic@, self.op_str@)
    }
}

/// The detail capstone gives of a decoded instruction.
pub struct DecodedDetail {
    /// Group ids.
    pub groups: Vec<u8>,
    /// Registers read.
    pub regs_read: Vec<u16>,
    /// Registers written.
    pub regs_write: Vec<u16>,
    /// The x86 operands, each as its immediate value where it is an
    /// immediate; `None` where there is no x86 detail.
    pub x86_immediates: Option<Vec<Option<i64>>>,
}

impl View for DecodedDetail {
    type V = (Seq<u8>, Seq<u16>, Seq<u16>, Option<Seq<Option<i64>>>);

    open spec fn view(&self) -> Self::V {
        (
            self.groups@,
            self.regs_read@,
            self.regs_write@,
            match &self.x86_immediates {
                Some(v) => Some(v@),
                None => None,
            },
        )
    }
}

/// Capstone's 64-bit x86 engine with instruction detail on, as
/// `X86Engine::new` builds it; no other engine can be put in one.
pub struct X86Engine {
    cs: Capstone,
}

impl X86Engine {
    /// Builds the engine. Whether capstone can build it is capstone's to
    /// decide; nothing of the input bears on it.
    pub fn new() -> (res: Result<X86Engine, capstone::Error>) {
        match x86_64_engine() {
            Ok(cs) => Ok(X86Engine { cs }),
            Err(e) => Err(e),
        }
    }
}

/// What capstone's 64-bit x86 engine decodes as the first instruction of
/// `code` placed at `addr`: address, length, mnemonic, operand text.
pub uninterp spec fn capstone_decode(code: Seq<u8>, addr: u64) -> Option<
    (u64, usize, Seq<char>, Seq<char>),
>;

/// The detail capstone's 64-bit x86 engine gives of the first instruction
/// of `code` placed at `addr`.
pub uninterp spec fn capstone_detail(code: Seq<u8>, addr: u64) -> Option<
    (Seq<u8>, Seq<u16>, Seq<u16>, Option<Seq<Option<i64>>>),
>;

/// Builds the engine through `Capstone::new().x86().mode(ArchMode::Mode64)
/// .detail(true).build()`. Nothing is claimed of whether the build succeeds.
#[verifier::external_body]
fn x86_64_engine() -> (res: Result<Capstone, capstone::Error>) {
    Capstone::new().x86().mode(ArchMode::Mode64).detail(true).build()
}

/// Calls `Capstone::disasm_count(code, addr, 1)` and reads the first
/// instruction through `Insn::address`, `Insn::bytes`, `Insn::mnemonic` and
/// `Insn::op_str`. The engine is always one that `x86_64_engine` builds (the
/// only way to an `X86Engine`), so the result is named as a function of
/// `code` and `addr`. Capstone documents `addr` as the address of the first
/// instruction. Its x86 decoder reads the opcode byte, reads no byte past
/// the end of `code`, and refuses an instruction longer than 15 bytes
/// (`decodeInstruction` in `X86DisassemblerDecoder.c`), so the length is 1 to
/// 15 and within `code`.
#[verifier::external_body]
fn decode_first(cs: &Capstone, code: &[u8], addr: u64) -> (res: Option<DecodedInsn>)
    ensures
        res is None <==> capstone_decode(code@, addr) is None,
        res matches Some(d) ==> capstone_decode(code@, addr) == Some(d@),
        res matches Some(d) ==> d.address == addr && 1 <= d.len <= MAX_X86_INSN_LEN && d.len
            <= code@.len(),
{
    let insns = cs.disasm_count(code, addr, 1).ok()?;
    let insn = insns.iter().next()?;
    Some(DecodedInsn {
        address: insn.address(),
        len: insn.bytes().len(),
        mnemonic: insn.mnemonic().unwrap_or("").to_string(),
        op_str: insn.op_str().unwrap_or("").to_string(),
    })
}

/// Calls `Capstone::disasm_count(code, addr, 1)` and `Capstone::insn_detail`
/// on the first instruction, then reads `InsnDetail::groups`, `regs_read`,
/// `regs_write` and the x86 operands (`arch_detail().x86()`, `operands()`),
/// keeping the value of each immediate operand. The result is named as a
/// function of `code` and `addr`, for the same engine as `decode_first`.
#[verifier::external_body]
fn decode_first_detail(cs: &Capstone, code: &[u8], addr: u64) -> (res: Option<DecodedDetail>)
    ensures
        res is None <==> capstone_detail(code@, addr) is None,
        res matches Some(d) ==> capstone_detail(code@, addr) == Some(d@),
{
    let insns = cs.disasm_count(code, addr, 1).ok()?;
    let insn = insns.iter().next()?;
    let d = cs.insn_detail(&insn).ok()?;
    let x86_immediates = d.arch_detail().x86().map(|x| x.operands().map(|o| match o.op_type {
        Imm(v) => Some(v),
        _ => None,
    }).collect());
    let groups = d.groups().iter().map(|g| g.0).collect();
    let regs_read = d.regs_read().iter().map(|r| r.0).collect();
    let regs_write = d.regs_write().iter().map(|r| r.0).collect();
    Some(DecodedDetail { groups, regs_read, regs_write, x86_immediates })
}

/// The first immediate among `ops`, as an unsigned address.
pub open spec fn first_immediate(ops: Seq<Option<i64>>) -> Option<u64>
    decreases ops.len(),
{
    if ops.len() == 0 {
        None
    } else {
        match ops[0] {
            Some(v) => Some(v as u64),
            None => first_immediate(ops.drop_first()),
        }
    }
}

/// Whether `groups` holds the group id `group`.
pub open spec fn groups_hold(groups: Seq<u8>, group: u32) -> bool {
    exists|k: int| 0 <= k < groups.len() && groups[k] as u32 == group
}

/// The branch target capstone's detail yields: the first immediate operand
/// of a jump or call.
pub open spec fn branch_target_from(groups: Seq<u8>, imms: Option<Seq<Option<i64>>>) -> Option<
    u64,
> {
    if groups_hold(groups, GROUP_JUMP as u32) || groups_hold(groups, GROUP_CALL as u32) {
        match imms {
            Some(ops) => first_immediate(ops),
            None => None,
        }
    } else {
        None
    }
}

impl Instruction {
    /// Whether the instruction belongs to capstone group `group`.
    pub open spec fn in_group(&self, group: u32) -> bool {
        groups_hold(self.groups@, group)
    }

    /// Whether the instruction is a jump or a call.
    pub open spec fn branches(&self) -> bool {
        self.in_group(GROUP_JUMP as u32) || self.in_group(GROUP_CALL as u32)
    }

    /// Whether the instruction reads register `reg`.
    pub open spec fn reads(&self, reg: u16) -> bool {
        self.regs_read@.contains(reg)
    }

    /// Whether the instruction writes register `reg`.
    pub open spec fn writes(&self, reg: u16) -> bool {
        self.regs_write@.contains(reg)
    }

    /// The instruction is what capstone decoded, `summary` and `detail`.
    pub open spec fn decoded_as(
        &self,
        summary: (u64, usize, Seq<char>, Seq<char>),
        detail: Option<(Seq<u8>, Seq<u16>, Seq<u16>, Option<Seq<Option<i64>>>)>,
    ) -> bool {
        &&& self.address == summary.0
        &&& self.size as usize == summary.1
        &&& self.mnemonic@ == summary.2
        &&& self.op_str@ == summary.3
        &&& match detail {
            None => {
                &&& self.groups@.len() == 0
                &&& self.regs_read@.len() == 0
                &&& self.regs_write@.len() == 0
                &&& self.branch_target is None
            },
            Some(d) => {
                &&& self.groups@ == d.0
                &&& self.regs_read@ == d.1
                &&& self.regs_write@ == d.2
                &&& self.branch_target == branch_target_from(d.0, d.3)
            },
        }
    }

    /// Whether the instruction is a jump.
    pub fn is_jump(&self) -> (r: bool)
        ensures
            r == self.in_group(GROUP_JUMP as u32),
    {
        self.has_group(GROUP_JUMP)
    }

    /// Whether the instruction is a call.
    pub fn is_call(&self) -> (r: bool)
        ensures
            r == self.in_group(GROUP_CALL as u32),
    {
        self.has_group(GROUP_CALL)
    }

    /// Whether the instruction is a return.
    pub fn is_ret(&self) -> (r: bool)
        ensures
            r == self.in_group(GROUP_RET as u32),
    {
        self.has_group(GROUP_RET)
    }

    /// Whether the instruction belongs to capstone group `group`.
    pub fn has_group(&self, group: u32) -> (r: bool)
        ensures
            r == self.in_group(group),
    {
        let mut k: usize = 0;
        while k < self.groups.len()
            invariant
                0 <= k <= self.groups@.len(),
                forall|j: int| 0 <= j < k ==> self.groups@[j] as u32 != group,
            decreases self.groups@.len() - k,
        {
            if self.groups[k] as u32 == group {
                return true;
            }
            k = k + 1;
        }
        false
    }

    /// Whether the instruction is a jump or a call.
    pub fn is_branch(&self) -> (r: bool)
        ensures
            r == self.branches(),
    {
        self.is_jump() || self.is_call()
    }
}

/// The first immediate among `ops`.
fn first_immediate_of(ops: &Vec<Option<i64>>) -> (r: Option<u64>)
    ensures
        r == first_immediate(ops@),
{
    let mut k: usize = 0;
    assert(ops@.skip(0) =~= ops@);
    while k < ops.len()
        invariant
            0 <= k <= ops@.len(),
            first_immediate(ops@) == first_immediate(ops@.skip(k as int)),
        decreases ops@.len() - k,
    {
        assert(ops@.skip(k as int).drop_first() =~= ops@.skip(k + 1));
        if let Some(v) = ops[k] {
            return Some(v as u64);
        }
        k = k + 1;
    }
    assert(ops@.skip(k as int).len() == 0);
    None
}

/// The target of a direct jump or call, from its groups and x86 operands.
pub fn extract_branch_target(groups: &Vec<u8>, imms: &Option<Vec<Option<i64>>>) -> (r: Option<u64>)
    ensures
        r == branch_target_from(
            groups@,
            match imms {
                Some(v) => Some(v@),
                None => None,
            },
        ),
{
    let mut is_branch = false;
    let mut k: usize = 0;
    while k < groups.len()
        invariant
            0 <= k <= groups@.len(),
            is_branch == exists|j: int|
                0 <= j < k && (groups@[j] as u32 == GROUP_JUMP as u32 || groups@[j] as u32
                    == GROUP_CALL as u32),
        decreases groups@.len() - k,
    {
        let g = groups[k] as u32;
        if g == GROUP_JUMP || g == GROUP_CALL {
            is_branch = true;
        }
        k = k + 1;
    }
    if !is_branch {
        return None;
    }
    match imms {
        Some(ops) => first_immediate_of(ops),
        None => None,
    }
}

/// Builds the instruction from what capstone decoded.
pub fn convert_insn(summary: DecodedInsn, detail: Option<DecodedDetail>) -> (insn: Instruction)
    requires
        summary.len <= MAX_X86_INSN_LEN,
    ensures
        insn.decoded_as(
            summary@,
            match detail {
                Some(d) => Some(d@),
                None => None,
            },
        ),
{
    let size = summary.len as u8;
    match detail {
        None => Instruction {
            address: summary.address,
            size,
            mnemonic: summary.mnemonic,
            op_str: summary.op_str,
            regs_read: Vec::new(),
            regs_write: Vec::new(),
            groups: Vec::new(),
            branch_target: None,
        },
        Some(d) => {
            let branch_target = extract_branch_target(&d.groups, &d.x86_immediates);
            Instruction {
                address: summary.address,
                size,
                mnemonic: summary.mnemonic,
                op_str: summary.op_str,
                regs_read: d.regs_read,
                regs_write: d.regs_write,
                groups: d.groups,
                branch_target,
            }
        },
    }
}

/// An entry of the superset is what capstone decodes at `addr` from `code`.
pub open spec fn decodes(entry: Option<Instruction>, code: Seq<u8>, addr: u64) -> bool {
    match capstone_decode(code, addr) {
        None => entry is None,
        Some(s) => entry matches Some(i) && i.decoded_as(s, capstone_detail(code, addr)),
    }
}

/// Whether `s` reads `jmp`.
pub open spec fn is_jmp_mnemonic(s: Seq<char>) -> bool {
    s == seq!['j', 'm', 'p']
}

/// The superset of a code buffer.
pub struct Superset {
    /// The engine that decodes the buffer.
    pub engine: X86Engine,
    /// Address of the first byte.
    pub base_addr: u64,
    /// The code bytes.
    pub bytes: Vec<u8>,
    /// The instruction decoded at each offset, if any.
    pub instructions: Vec<Option<Instruction>>,
}

impl Superset {
    /// The superset is well formed: the address of each offset fits in 64
    /// bits, and each entry sits at its own address, is 1 to 15 bytes long
    /// and lies within the buffer.
    pub open spec fn wf(&self) -> bool {
        &&& self.base_addr + self.instructions@.len() <= u64::MAX + 1
        &&& forall|o: int|
            0 <= o < self.instructions@.len() ==> match #[trigger] self.instructions@[o] {
                Some(i) => i.address == self.base_addr + o && 1 <= i.size <= MAX_X86_INSN_LEN && o
                    + i.size <= self.instructions@.len(),
                None => true,
            }
    }

    /// Every decoded instruction ends at or below the top address, so that
    /// the address just past it fits in 64 bits.
    pub open spec fn ends_below_top(&self) -> bool {
        forall|o: int|
            0 <= o < self.instructions@.len() ==> (#[trigger] self.instructions@[o] matches Some(i)
                ==> i.address + i.size <= u64::MAX)
    }

    /// Each entry is what capstone decodes at its offset of `code`.
    pub open spec fn decoded_from(&self, base_addr: u64, code: Seq<u8>) -> bool {
        &&& self.base_addr == base_addr
        &&& self.bytes@ == code
        &&& self.instructions@.len() == code.len()
        &&& forall|o: int|
            0 <= o < code.len() ==> decodes(
                #[trigger] self.instructions@[o],
                code.subrange(o, code.len() as int),
                (base_addr + o) as u64,
            )
    }

    /// Number of offsets.
    pub open spec fn len(&self) -> int {
        self.instructions@.len() as int
    }

    /// Whether `addr` lies in the buffer.
    pub open spec fn in_range(&self, addr: int) -> bool {
        self.base_addr <= addr < self.base_addr + self.len()
    }

    /// The entry at address `addr`.
    pub open spec fn insn_at(&self, addr: int) -> Option<Instruction> {
        if self.in_range(addr) {
            self.instructions@[addr - self.base_addr]
        } else {
            None
        }
    }

    /// Intraprocedural control-flow successors of `addr`.
    pub open spec fn successors(&self, addr: u64) -> Seq<u64> {
        match self.insn_at(addr as int) {
            None => seq![],
            Some(i) => if i.in_group(GROUP_RET as u32) {
                seq![]
            } else {
                let fall_through = (addr + i.size) as u64;
                if !i.in_group(GROUP_JUMP as u32) {
                    seq![fall_through]
                } else {
                    (match i.branch_target {
                        Some(t) => seq![t],
                        None => seq![],
                    }) + (if is_jmp_mnemonic(i.mnemonic@) {
                        seq![]
                    } else {
                        seq![fall_through]
                    })
                }
            },
        }
    }

    /// An empty superset that decodes with `engine`.
    pub fn with_engine(engine: X86Engine) -> (s: Superset)
        ensures
            s.base_addr == 0,
            s.bytes@.len() == 0,
            s.instructions@.len() == 0,
    {
        Superset { engine, base_addr: 0, bytes: Vec::new(), instructions: Vec::new() }
    }

    /// Builds the superset of `bytes` loaded at `base_addr`: fails only where
    /// capstone cannot build its engine, and otherwise decodes as
    /// `disassemble` does.
    pub fn new(base_addr: u64, bytes: &[u8]) -> (res: Result<Self, capstone::Error>)
        requires
            base_addr + bytes@.len() <= u64::MAX + 1,
        ensures
            res matches Ok(s) ==> s.wf() && s.decoded_from(base_addr, bytes@),
    {
        let engine = match X86Engine::new() {
            Ok(engine) => engine,
            Err(e) => return Err(e),
        };
        let mut sup = Self::with_engine(engine);
        match sup.disassemble(base_addr, bytes) {
            Ok(()) => Ok(sup),
            Err(e) => Err(e),
        }
    }

    /// Builds the superset of `bytes` loaded at `base_addr`.
    pub fn from_bytes(base_addr: u64, bytes: &[u8]) -> (res: Result<Self, capstone::Error>)
        requires
            base_addr + bytes@.len() <= u64::MAX + 1,
        ensures
            res matches Ok(s) ==> s.wf() && s.decoded_from(base_addr, bytes@),
    {
        Self::new(base_addr, bytes)
    }

    /// Decodes an instruction at every offset of `data`, loaded at
    /// `base_addr`, with the superset's engine, replacing the superset's
    /// contents. It always succeeds.
    pub fn disassemble(&mut self, base_addr: u64, data: &[u8]) -> (res: Result<(), capstone::Error>)
        requires
            base_addr + data@.len() <= u64::MAX + 1,
        ensures
            res is Ok,
            final(self).wf(),
            final(self).decoded_from(base_addr, data@),
    {
        let cs = &self.engine.cs;
        let n = data.len();
        let mut instructions: Vec<Option<Instruction>> = Vec::new();
        for offset in 0..n
            invariant
                n == data@.len(),
                base_addr + n <= u64::MAX + 1,
                instructions@.len() == offset,
                forall|o: int|
                    0 <= o < offset ==> decodes(
                        #[trigger] instructions@[o],
                        data@.subrange(o, n as int),
                        (base_addr + o) as u64,
                    ),
                forall|o: int|
                    0 <= o < offset ==> match #[trigger] instructions@[o] {
                        Some(i) => i.address == base_addr + o && 1 <= i.size <= MAX_X86_INSN_LEN && o
                            + i.size <= n,
                        None => true,
                    },
        {
            let addr = base_addr + offset as u64;
            let code = slice_subrange(data, offset, n);
            let entry = match decode_first(cs, code, addr) {
                None => None,
                Some(summary) => {
                    let detail = decode_first_detail(cs, code, addr);
                    Some(convert_insn(summary, detail))
                },
            };
            instructions.push(entry);
        }
        self.base_addr = base_addr;
        self.bytes = slice_to_vec(data);
        self.instructions = instructions;
        Ok(())
    }

    /// The instruction decoded at address `addr`, if any.
    pub fn at(&self, addr: u64) -> (r: Option<&Instruction>)
        ensures
            match r {
                Some(i) => self.insn_at(addr as int) == Some(*i),
                None => self.insn_at(addr as int) is None,
            },
    {
        if addr < self.base_addr {
            return None;
        }
        let offset = addr - self.base_addr;
        if offset >= self.instructions.len() as u64 {
            return None;
        }
        match &self.instructions[offset as usize] {
            Some(i) => Some(i),
            None => None,
        }
    }

    /// Number of offsets at which an instruction decodes.
    pub fn valid_count(&self) -> (r: usize)
        ensures
            r == valid_entries(self.instructions@).len(),
    {
        let mut count: usize = 0;
        let mut k: usize = 0;
        while k < self.instructions.len()
            invariant
                0 <= k <= self.instructions@.len(),
                count == valid_entries(self.instructions@.take(k as int)).len(),
                count <= k,
            decreases self.instructions@.len() - k,
        {
            assert(self.instructions@.take(k + 1).drop_last() =~= self.instructions@.take(
                k as int,
            ));
            if self.instructions[k].is_some() {
                count = count + 1;
            }
            k = k + 1;
        }
        assert(self.instructions@.take(k as int) =~= self.instructions@);
        count
    }

    /// Number of offsets at which no instruction decodes.
    pub fn invalid_count(&self) -> (r: usize)
        ensures
            r == self.instructions@.len() - valid_entries(self.instructions@).len(),
    {
        let mut count: usize = 0;
        let mut k: usize = 0;
        while k < self.instructions.len()
            invariant
                0 <= k <= self.instructions@.len(),
                count == k - valid_entries(self.instructions@.take(k as int)).len(),
                count <= k,
            decreases self.instructions@.len() - k,
        {
            assert(self.instructions@.take(k + 1).drop_last() =~= self.instructions@.take(
                k as int,
            ));
            if self.instructions[k].is_none() {
                count = count + 1;
            }
            k = k + 1;
        }
        assert(self.instructions@.take(k as int) =~= self.instructions@);
        count
    }

    /// The decoded instructions, in address order.
    pub fn iter_valid(&self) -> (r: Vec<&Instruction>)
        ensures
            r@.map_values(|i: &Instruction| *i) == valid_entries(self.instructions@),
    {
        let mut out: Vec<&Instruction> = Vec::new();
        let mut k: usize = 0;
        while k < self.instructions.len()
            invariant
                0 <= k <= self.instructions@.len(),
                out@.map_values(|i: &Instruction| *i) == valid_entries(
                    self.instructions@.take(k as int),
                ),
            decreases self.instructions@.len() - k,
        {
            assert(self.instructions@.take(k + 1).drop_last() =~= self.instructions@.take(
                k as int,
            ));
            if let Some(i) = &self.instructions[k] {
                out.push(i);
            }
            assert(out@.map_values(|i: &Instruction| *i) =~= valid_entries(
                self.instructions@.take(k + 1),
            ));
            k = k + 1;
        }
        assert(self.instructions@.take(k as int) =~= self.instructions@);
        out
    }

    /// Intraprocedural control-flow successors of `addr`. Calls take the
    /// fall-through (callees are not followed). Empty for a return or for an
    /// address that does not decode.
    pub fn successors_of(&self, addr: u64) -> (r: Vec<u64>)
        requires
            self.wf(),
            self.insn_at(addr as int) matches Some(i) ==> (i.in_group(GROUP_RET as u32) || addr
                + i.size <= u64::MAX),
        ensures
            r@ == self.successors(addr),
            self.insn_at(addr as int) matches Some(i) ==> (i.in_group(GROUP_CALL as u32) && !i.in_group(
                GROUP_RET as u32,
            ) && !i.in_group(GROUP_JUMP as u32) ==> r@ == seq![(addr + i.size) as u64]),
    {
        proof {
            lemma_successors_by_kind(self, addr);
        }
        let insn = match self.at(addr) {
            Some(i) => i,
            None => return Vec::new(),
        };
        if insn.is_ret() {
            return Vec::new();
        }
        proof {
            let o = addr - self.base_addr;
            assert(self.instructions@[o] == Some(*insn));
        }
        let fall_through = addr + insn.size as u64;
        if !insn.is_jump() {
            return vec![fall_through];
        }
        let mut out: Vec<u64> = Vec::new();
        if let Some(target) = insn.branch_target {
            out.push(target);
        }
        if !is_jmp(&insn.mnemonic) {
            out.push(fall_through);
        }
        assert(out@ =~= self.successors(addr));
        out
    }
}

/// The control-flow successors by kind of instruction. Nothing follows an
/// address that does not decode, or a return. Any other instruction that
/// is not a jump, a call among them, is followed by its fall-through alone,
/// whatever its target: callees are not entered. An unconditional `jmp` is
/// followed by its direct target alone, if it has one; any other jump by
/// its direct target, if any, and then its fall-through.
pub proof fn lemma_successors_by_kind(s: &Superset, addr: u64)
    ensures
        s.insn_at(addr as int) is None ==> s.successors(addr) == Seq::<u64>::empty(),
        s.insn_at(addr as int) matches Some(i) ==> (i.in_group(GROUP_RET as u32) ==> s.successors(addr)
            == Seq::<u64>::empty()),
        s.insn_at(addr as int) matches Some(i) ==> (!i.in_group(GROUP_RET as u32) && !i.in_group(
            GROUP_JUMP as u32,
        ) ==> s.successors(addr) == seq![(addr + i.size) as u64]),
        s.insn_at(addr as int) matches Some(i) ==> (i.in_group(GROUP_CALL as u32) && !i.in_group(
            GROUP_RET as u32,
        ) && !i.in_group(GROUP_JUMP as u32) ==> s.successors(addr) == seq![(addr + i.size) as u64]),
        s.insn_at(addr as int) matches Some(i) ==> (!i.in_group(GROUP_RET as u32) && i.in_group(
            GROUP_JUMP as u32,
        ) && i.mnemonic@ == seq!['j', 'm', 'p'] ==> s.successors(addr) == match i.branch_target {
            Some(t) => seq![t],
            None => Seq::<u64>::empty(),
        }),
        s.insn_at(addr as int) matches Some(i) ==> (!i.in_group(GROUP_RET as u32) && i.in_group(
            GROUP_JUMP as u32,
        ) && i.mnemonic@ != seq!['j', 'm', 'p'] ==> s.successors(addr) == match i.branch_target {
            Some(t) => seq![t, (addr + i.size) as u64],
            None => seq![(addr + i.size) as u64],
        }),
{
    if let Some(i) = s.insn_at(addr as int) {
        if !i.in_group(GROUP_RET as u32) && i.in_group(GROUP_JUMP as u32) {
            let ft = (addr + i.size) as u64;
            if let Some(t) = i.branch_target {
                assert(seq![t] + Seq::<u64>::empty() =~= seq![t]);
                assert(seq![t] + seq![ft] =~= seq![t, ft]);
            } else {
                assert(Seq::<u64>::empty() + Seq::<u64>::empty() =~= Seq::<u64>::empty());
                assert(Seq::<u64>::empty() + seq![ft] =~= seq![ft]);
            }
        }
    }
}

/// Two entries hold the same instruction: the same address, length,
/// mnemonic, operand text, registers, groups and branch target.
pub open spec fn same_entry(a: Option<Instruction>, b: Option<Instruction>) -> bool {
    match (a, b) {
        (None, None) => true,
        (Some(i), Some(j)) => {
            &&& i.address == j.address
            &&& i.size == j.size
            &&& i.mnemonic@ == j.mnemonic@
            &&& i.op_str@ == j.op_str@
            &&& i.regs_read@ == j.regs_read@
            &&& i.regs_write@ == j.regs_write@
            &&& i.groups@ == j.groups@
            &&& i.branch_target == j.branch_target
        },
        _ => false,
    }
}

/// Decoding is a function of the bytes and their address: two supersets
/// decoded from the same bytes at the same address, one by `from_bytes` and
/// one by `disassemble` on a superset of any earlier contents, hold the same
/// state and give the same control-flow successors.
pub proof fn lemma_decoded_state_unique(a: &Superset, b: &Superset, base_addr: u64, code: Seq<u8>)
    requires
        a.decoded_from(base_addr, code),
        b.decoded_from(base_addr, code),
    ensures
        a.base_addr == b.base_addr,
        a.bytes@ == b.bytes@,
        a.instructions@.len() == b.instructions@.len(),
        forall|o: int|
            0 <= o < a.instructions@.len() ==> same_entry(
                #[trigger] a.instructions@[o],
                b.instructions@[o],
            ),
        forall|addr: u64| #[trigger] a.successors(addr) == b.successors(addr),
{
    assert forall|o: int| 0 <= o < a.instructions@.len() implies same_entry(
        #[trigger] a.instructions@[o],
        b.instructions@[o],
    ) by {
        assert(decodes(a.instructions@[o], code.subrange(o, code.len() as int), (base_addr + o) as u64));
        assert(decodes(b.instructions@[o], code.subrange(o, code.len() as int), (base_addr + o) as u64));
        if let (Some(i), Some(j)) = (a.instructions@[o], b.instructions@[o]) {
            assert(i.groups@ =~= j.groups@);
            assert(i.regs_read@ =~= j.regs_read@);
            assert(i.regs_write@ =~= j.regs_write@);
        }
    }
    assert forall|addr: u64| #[trigger] a.successors(addr) == b.successors(addr) by {
        if a.in_range(addr as int) {
            let o = addr - a.base_addr;
            assert(same_entry(a.instructions@[o], b.instructions@[o]));
        }
    }
}

/// The decoded entries of `entries`, in order.
pub open spec fn valid_entries(entries: Seq<Option<Instruction>>) -> Seq<Instruction>
    decreases entries.len(),
{
    if entries.len() == 0 {
        seq![]
    } else {
        valid_entries(entries.drop_last()) + match entries.last() {
            Some(i) => seq![i],
            None => seq![],
        }
    }
}

/// Whether the mnemonic `m` is `jmp`.
fn is_jmp(m: &String) -> (r: bool)
    ensures
        r == is_jmp_mnemonic(m@),
{
    let s = m.as_str();
    if s.unicode_len() != 3 {
        return false;
    }
    let r = s.get_char(0) == 'j' && s.get_char(1) == 'm' && s.get_char(2) == 'p';
    assert(r ==> s@ =~= seq!['j', 'm', 'p']);
    r
}

} // verus!
