use vstd::prelude::*;

use crate::text::push_char;
use crate::value::{spec_truthy, spec_f64_bits_of_count, f64_bits_of_count, AddPlan, Value, ValueV};
use crate::wire::{u16_from_le, u32_from_le};

verus! {

// ---------------------------------------------------------------------------
// Errors
// ---------------------------------------------------------------------------

/// A fatal condition met while loading or running an artifact. Nothing is
/// recovered: the first error ends the run.
#[derive(Debug, Clone)]
pub struct RuntimeError {
    pub message: String,
}

impl View for RuntimeError {
    type V = Seq<char>;

    open spec fn view(&self) -> Seq<char> {
        self.message@
    }
}

impl RuntimeError {
    pub fn new(message: &str) -> (e: Self)
        ensures
            e@ == message@,
    {
        RuntimeError { message: message.to_owned() }
    }
}

// ---------------------------------------------------------------------------
// Machine data
// ---------------------------------------------------------------------------

/// One function table entry of a loaded artifact.
#[derive(Debug, Clone, Copy, PartialEq, Eq, Structural)]
pub struct FuncMeta {
    pub name_const_idx: u32,
    pub arity: u16,
    pub local_count: u16,
    pub code_offset: u32,
}

/// One call frame: where to resume after a return, and the callee's locals.
#[derive(Debug)]
pub struct Frame {
    pub return_address: usize,
    pub locals: Vec<Option<Value>>,
}

/// What the machine is waiting on from its driver, if anything. Double
/// arithmetic, the display form of a double, parsing a double from text,
/// and reading a line of input are the four services the machine requests
/// rather than performs.
#[derive(Debug)]
pub enum Pending {
    /// Not waiting: the next step dispatches an opcode.
    Idle,
    /// Waiting for the bit pattern of an arithmetic result.
    Arith,
    /// Waiting for the display form of a number, to be printed.
    FmtPrint,
    /// Waiting for the display form of the left operand of a concatenation;
    /// `right` is the already-known right operand.
    FmtLeft { right: String },
    /// Waiting for the display form of the right operand of a concatenation;
    /// `left` is the already-known left operand.
    FmtRight { left: String },
    /// Waiting for the outcome of parsing a number from text.
    Transform,
    /// Waiting for a line of standard input.
    Input,
}

/// The driver's answer to the machine's most recent request.
#[derive(Debug)]
pub enum Reply {
    /// The bit pattern of an arithmetic result.
    Bits(u64),
    /// A rendered display form.
    Text(String),
    /// The outcome of parsing a number from text: the bit pattern, or
    /// nothing if the text is not a number.
    Parsed(Option<u64>),
    /// A line of input, already stripped of its trailing line break.
    Line(String),
}

/// The four double operations a driver performs on request.
#[derive(Debug, Clone, Copy, PartialEq, Eq, Structural)]
pub enum ArithOp {
    Add,
    Sub,
    Mul,
    Div,
}

/// What one step of the machine amounts to, seen from the driver.
#[derive(Debug)]
pub enum Effect {
    /// An internal step completed; call `step` again with no reply.
    Running,
    /// Compute the double `op` of the operands with bit patterns `a` and
    /// `b`, and reply with the result's bit pattern.
    NeedArith { op: ArithOp, a: u64, b: u64 },
    /// Render the shortest round-trip decimal display form of the double
    /// with bit pattern `bits`, and reply with the text.
    NeedText { bits: u64 },
    /// Parse `text` as a double, and reply with the bit pattern or nothing.
    NeedParsed { text: String },
    /// Read one line of standard input (flushing output first), strip its
    /// trailing line break, and reply with it.
    NeedLine,
    /// Write `text` followed by a newline to standard output.
    Wrote { text: String },
    /// Execution finished normally.
    Halted,
}

/// The whole machine: the tables of a loaded artifact and the mutable
/// execution state.
#[derive(Debug)]
pub struct Vm {
    pub constants: Vec<Value>,
    pub globals: Vec<Option<Value>>,
    pub stack: Vec<Value>,
    pub call_stack: Vec<Frame>,
    pub functions: Vec<FuncMeta>,
    pub code: Vec<u8>,
    pub ip: usize,
    pub pending: Pending,
}

// ---------------------------------------------------------------------------
// Mathematical views
// ---------------------------------------------------------------------------

pub enum PendingV {
    Idle,
    Arith,
    FmtPrint,
    FmtLeft { right: Seq<char> },
    FmtRight { left: Seq<char> },
    Transform,
    Input,
}

pub enum ReplyV {
    Bits(u64),
    Text(Seq<char>),
    Parsed(Option<u64>),
    Line(Seq<char>),
}

pub enum EffectV {
    Running,
    NeedArith { op: ArithOp, a: u64, b: u64 },
    NeedText { bits: u64 },
    NeedParsed { text: Seq<char> },
    NeedLine,
    Wrote { text: Seq<char> },
    Halted,
}

#[verifier::ext_equal]
pub struct FrameV {
    pub ret: nat,
    pub locals: Seq<Option<ValueV>>,
}

#[verifier::ext_equal]
pub struct VmV {
    pub constants: Seq<ValueV>,
    pub globals: Seq<Option<ValueV>>,
    pub stack: Seq<ValueV>,
    pub frames: Seq<FrameV>,
    pub functions: Seq<FuncMeta>,
    pub code: Seq<u8>,
    pub ip: nat,
    pub pending: PendingV,
}

pub open spec fn opt_val_v(o: Option<Value>) -> Option<ValueV> {
    match o {
        Some(v) => Some(v@),
        None => None,
    }
}

pub open spec fn vals_v(s: Seq<Value>) -> Seq<ValueV> {
    s.map_values(|v: Value| v@)
}

pub open spec fn opts_v(s: Seq<Option<Value>>) -> Seq<Option<ValueV>> {
    s.map_values(|o: Option<Value>| opt_val_v(o))
}

pub open spec fn frames_v(s: Seq<Frame>) -> Seq<FrameV> {
    s.map_values(|f: Frame| f@)
}

impl View for Pending {
    type V = PendingV;

    open spec fn view(&self) -> PendingV {
        match self {
            Pending::Idle => PendingV::Idle,
            Pending::Arith => PendingV::Arith,
            Pending::FmtPrint => PendingV::FmtPrint,
            Pending::FmtLeft { right } => PendingV::FmtLeft { right: right@ },
            Pending::FmtRight { left } => PendingV::FmtRight { left: left@ },
            Pending::Transform => PendingV::Transform,
            Pending::Input => PendingV::Input,
        }
    }
}

impl View for Reply {
    type V = ReplyV;

    open spec fn view(&self) -> ReplyV {
        match self {
            Reply::Bits(b) => ReplyV::Bits(*b),
            Reply::Text(t) => ReplyV::Text(t@),
            Reply::Parsed(o) => ReplyV::Parsed(*o),
            Reply::Line(l) => ReplyV::Line(l@),
        }
    }
}

impl View for Effect {
    type V = EffectV;

    open spec fn view(&self) -> EffectV {
        match self {
            Effect::Running => EffectV::Running,
            Effect::NeedArith { op, a, b } => EffectV::NeedArith { op: *op, a: *a, b: *b },
            Effect::NeedText { bits } => EffectV::NeedText { bits: *bits },
            Effect::NeedParsed { text } => EffectV::NeedParsed { text: text@ },
            Effect::NeedLine => EffectV::NeedLine,
            Effect::Wrote { text } => EffectV::Wrote { text: text@ },
            Effect::Halted => EffectV::Halted,
        }
    }
}

impl View for Frame {
    type V = FrameV;

    open spec fn view(&self) -> FrameV {
        FrameV { ret: self.return_address as nat, locals: opts_v(self.locals@) }
    }
}

impl View for Vm {
    type V = VmV;

    open spec fn view(&self) -> VmV {
        VmV {
            constants: vals_v(self.constants@),
            globals: opts_v(self.globals@),
            stack: vals_v(self.stack@),
            frames: frames_v(self.call_stack@),
            functions: self.functions@,
            code: self.code@,
            ip: self.ip as nat,
            pending: self.pending@,
        }
    }
}

impl VmV {
    /// The one structural invariant of a loaded machine: exactly seven
    /// global slots.
    pub open spec fn wf(self) -> bool {
        self.globals.len() == 7
    }
}

impl Vm {
    pub open spec fn wf(self) -> bool {
        self@.wf()
    }
}

/// The view of a step's outcome: the effect, or the diagnostic text.
pub open spec fn res_v(r: Result<Effect, RuntimeError>) -> Result<EffectV, Seq<char>> {
    match r {
        Ok(e) => Ok(e@),
        Err(e) => Err(e@),
    }
}

pub open spec fn reply_v(r: Option<Reply>) -> Option<ReplyV> {
    match r {
        Some(rep) => Some(rep@),
        None => None,
    }
}

// ---------------------------------------------------------------------------
// Small shared pieces
// ---------------------------------------------------------------------------

/// Truth of a condition value: a number other than plus or minus zero, or
/// a non-empty text.
pub fn is_truthy(value: &Value) -> (r: bool)
    ensures
        r == spec_truthy(value@),
{
    match value {
        Value::Num(b) => *b != 0 && *b != crate::value::NEG_ZERO_BITS,
        Value::Str(s) => s.as_str().unicode_len() != 0,
    }
}

/// The canonical spelling of global slot `i`.
pub open spec fn spec_braincell_name(i: u8) -> Seq<char> {
    if i == 0 {
        "aura"@
    } else if i == 1 {
        "peak"@
    } else if i == 2 {
        "goon"@
    } else if i == 3 {
        "mog"@
    } else if i == 4 {
        "npc"@
    } else if i == 5 {
        "sigma"@
    } else {
        "gyatt"@
    }
}

pub fn braincell_name(i: u8) -> (r: &'static str)
    ensures
        r@ == spec_braincell_name(i),
{
    if i == 0 {
        "aura"
    } else if i == 1 {
        "peak"
    } else if i == 2 {
        "goon"
    } else if i == 3 {
        "mog"
    } else if i == 4 {
        "npc"
    } else if i == 5 {
        "sigma"
    } else {
        "gyatt"
    }
}

/// The lower-case hexadecimal digit for `n & 0xf`.
pub open spec fn spec_hex_digit(n: u8) -> char {
    if n == 0 {
        '0'
    } else if n == 1 {
        '1'
    } else if n == 2 {
        '2'
    } else if n == 3 {
        '3'
    } else if n == 4 {
        '4'
    } else if n == 5 {
        '5'
    } else if n == 6 {
        '6'
    } else if n == 7 {
        '7'
    } else if n == 8 {
        '8'
    } else if n == 9 {
        '9'
    } else if n == 10 {
        'a'
    } else if n == 11 {
        'b'
    } else if n == 12 {
        'c'
    } else if n == 13 {
        'd'
    } else if n == 14 {
        'e'
    } else {
        'f'
    }
}

fn hex_digit(n: u8) -> (r: char)
    requires
        n < 16,
    ensures
        r == spec_hex_digit(n),
{
    if n == 0 {
        '0'
    } else if n == 1 {
        '1'
    } else if n == 2 {
        '2'
    } else if n == 3 {
        '3'
    } else if n == 4 {
        '4'
    } else if n == 5 {
        '5'
    } else if n == 6 {
        '6'
    } else if n == 7 {
        '7'
    } else if n == 8 {
        '8'
    } else if n == 9 {
        '9'
    } else if n == 10 {
        'a'
    } else if n == 11 {
        'b'
    } else if n == 12 {
        'c'
    } else if n == 13 {
        'd'
    } else if n == 14 {
        'e'
    } else {
        'f'
    }
}

/// The diagnostic for a byte that is no opcode.
pub open spec fn spec_unknown_opcode_msg(op: u8) -> Seq<char> {
    "unknown opcode: 0x"@.push(spec_hex_digit((op >> 4) & 0xf)).push(spec_hex_digit(op & 0xf))
}

fn unknown_opcode_msg(op: u8) -> (r: String)
    ensures
        r@ == spec_unknown_opcode_msg(op),
{
    let mut s = "unknown opcode: 0x".to_owned();
    assert((op >> 4) & 0xf < 16 && op & 0xf < 16) by (bit_vector);
    let hi = hex_digit((op >> 4) & 0xf);
    let lo = hex_digit(op & 0xf);
    push_char(&mut s, hi);
    push_char(&mut s, lo);
    s
}

// ---------------------------------------------------------------------------
// Operand reads
// ---------------------------------------------------------------------------

/// Reading a one-byte operand: past the end of the code the read yields
/// zero and the cursor stays put.
pub open spec fn spec_read_u8(code: Seq<u8>, ip: nat) -> (u8, nat) {
    if ip + 1 <= code.len() {
        (code[ip as int], ip + 1)
    } else {
        (0u8, ip)
    }
}

pub open spec fn spec_read_u16(code: Seq<u8>, ip: nat) -> (u16, nat) {
    if ip + 2 <= code.len() {
        (u16_from_le(code[ip as int], code[ip as int + 1]), ip + 2)
    } else {
        (0u16, ip)
    }
}

pub open spec fn spec_read_u32(code: Seq<u8>, ip: nat) -> (u32, nat) {
    if ip + 4 <= code.len() {
        (
            u32_from_le(
                code[ip as int],
                code[ip as int + 1],
                code[ip as int + 2],
                code[ip as int + 3],
            ),
            ip + 4,
        )
    } else {
        (0u32, ip)
    }
}

impl Vm {
    pub fn read_u8(&mut self) -> (v: u8)
        ensures
            ({
                let (v2, ip2) = spec_read_u8(old(self)@.code, old(self)@.ip);
                v == v2 && final(self)@ == (VmV { ip: ip2, ..old(self)@ })
            }),
            final(self).constants@ == old(self).constants@,
            final(self).globals@ == old(self).globals@,
            final(self).stack@ == old(self).stack@,
            final(self).call_stack@ == old(self).call_stack@,
    {
        if self.ip >= self.code.len() {
            return 0;
        }
        let v = self.code[self.ip];
        self.ip = self.ip + 1;
        v
    }

    pub fn read_u16(&mut self) -> (v: u16)
        ensures
            ({
                let (v2, ip2) = spec_read_u16(old(self)@.code, old(self)@.ip);
                v == v2 && final(self)@ == (VmV { ip: ip2, ..old(self)@ })
            }),
            final(self).constants@ == old(self).constants@,
            final(self).globals@ == old(self).globals@,
            final(self).stack@ == old(self).stack@,
            final(self).call_stack@ == old(self).call_stack@,
    {
        if self.ip >= self.code.len() || self.code.len() - self.ip < 2 {
            return 0;
        }
        let v = crate::wire::read_u16_le(self.code[self.ip], self.code[self.ip + 1]);
        self.ip = self.ip + 2;
        v
    }

    pub fn read_u32(&mut self) -> (v: u32)
        ensures
            ({
                let (v2, ip2) = spec_read_u32(old(self)@.code, old(self)@.ip);
                v == v2 && final(self)@ == (VmV { ip: ip2, ..old(self)@ })
            }),
            final(self).constants@ == old(self).constants@,
            final(self).globals@ == old(self).globals@,
            final(self).stack@ == old(self).stack@,
            final(self).call_stack@ == old(self).call_stack@,
    {
        if self.ip >= self.code.len() || self.code.len() - self.ip < 4 {
            return 0;
        }
        let v = crate::wire::read_u32_le(
            self.code[self.ip],
            self.code[self.ip + 1],
            self.code[self.ip + 2],
            self.code[self.ip + 3],
        );
        self.ip = self.ip + 4;
        v
    }
}

/// Loads an artifact and hands back the machine ready to run: its tables
/// are exactly what [`spec_parse_artifact`] reads, its globals are seven
/// unset slots, its stacks are empty, its instruction pointer is at zero
/// and it is idle. Execution itself is then driven by calling
/// [`Vm::step`] until it yields `Halted` or an error, answering each
/// request along the way.
pub fn execute(bytecode: &[u8]) -> (r: Result<Vm, RuntimeError>)
    ensures
        match r {
            Ok(vm) => vm.wf() && (spec_parse_artifact(bytecode@) matches Ok(t) && vm@ == (VmV {
                constants: t.0,
                globals: Seq::new(7, |i: int| None),
                stack: Seq::empty(),
                frames: Seq::empty(),
                functions: t.1,
                code: t.2,
                ip: 0,
                pending: PendingV::Idle,
            })),
            Err(e) => spec_parse_artifact(bytecode@) matches Err(m) && e@ == m,
        },
{
    let mut vm = Vm::new();
    match vm.load(bytecode) {
        Ok(()) => Ok(vm),
        Err(e) => Err(e),
    }
}


/// The string coercion law of addition: whenever either operand of the
/// addition opcode is a text, the value that ends up on the stack is the
/// concatenation of the display forms of the two operands — the text
/// itself for a text operand, and the driver-rendered display form for a
/// numeric operand, requested through the machine's effects.
pub proof fn lemma_add_string_coercion(m: VmV, tx: Seq<char>, ty: Seq<char>)
    requires
        m.pending is Idle,
        m.stack.len() >= 2,
        (m.stack[m.stack.len() - 2] is Str) || (m.stack[m.stack.len() - 1] is Str),
    ensures
        ({
            let x = m.stack[m.stack.len() - 2];
            let y = m.stack[m.stack.len() - 1];
            let rest = m.stack.drop_last().drop_last();
            let (m1, r1) = spec_op_add(m);
            match (x, y) {
                (ValueV::Str(a), ValueV::Str(b)) => m1.stack == rest.push(ValueV::Str(a + b))
                    && r1 == Ok::<EffectV, Seq<char>>(EffectV::Running),
                (ValueV::Num(bx), ValueV::Str(b)) => r1 == Ok::<EffectV, Seq<char>>(
                    EffectV::NeedText { bits: bx },
                ) && spec_step(m1, Some(ReplyV::Text(tx))).0.stack == rest.push(
                    ValueV::Str(tx + b),
                ),
                (ValueV::Str(a), ValueV::Num(by)) => r1 == Ok::<EffectV, Seq<char>>(
                    EffectV::NeedText { bits: by },
                ) && spec_step(m1, Some(ReplyV::Text(ty))).0.stack == rest.push(
                    ValueV::Str(a + ty),
                ),
                (ValueV::Num(_), ValueV::Num(_)) => false,
            }
        }),
{
}

// ---------------------------------------------------------------------------
// View algebra
// ---------------------------------------------------------------------------

proof fn lemma_vals_push(s: Seq<Value>, x: Value)
    ensures
        vals_v(s.push(x)) == vals_v(s).push(x@),
{
    assert(vals_v(s.push(x)) =~= vals_v(s).push(x@));
}

proof fn lemma_vals_drop(s: Seq<Value>)
    requires
        s.len() > 0,
    ensures
        vals_v(s.drop_last()) == vals_v(s).drop_last(),
{
    assert(vals_v(s.drop_last()) =~= vals_v(s).drop_last());
}

proof fn lemma_opts_update(s: Seq<Option<Value>>, i: int, x: Option<Value>)
    requires
        0 <= i < s.len(),
    ensures
        opts_v(s.update(i, x)) == opts_v(s).update(i, opt_val_v(x)),
{
    assert(opts_v(s.update(i, x)) =~= opts_v(s).update(i, opt_val_v(x)));
}

proof fn lemma_opts_push(s: Seq<Option<Value>>, x: Option<Value>)
    ensures
        opts_v(s.push(x)) == opts_v(s).push(opt_val_v(x)),
{
    assert(opts_v(s.push(x)) =~= opts_v(s).push(opt_val_v(x)));
}

proof fn lemma_frames_push(s: Seq<Frame>, f: Frame)
    ensures
        frames_v(s.push(f)) == frames_v(s).push(f@),
{
    assert(frames_v(s.push(f)) =~= frames_v(s).push(f@));
}

proof fn lemma_frames_drop(s: Seq<Frame>)
    requires
        s.len() > 0,
    ensures
        frames_v(s.drop_last()) == frames_v(s).drop_last(),
{
    assert(frames_v(s.drop_last()) =~= frames_v(s).drop_last());
}

proof fn lemma_frames_update(s: Seq<Frame>, i: int, f: Frame)
    requires
        0 <= i < s.len(),
    ensures
        frames_v(s.update(i, f)) == frames_v(s).update(i, f@),
{
    assert(frames_v(s.update(i, f)) =~= frames_v(s).update(i, f@));
}

// ---------------------------------------------------------------------------
// The transition function, opcode by opcode
// ---------------------------------------------------------------------------

pub open spec fn spec_op_load_const(m: VmV) -> (VmV, Result<EffectV, Seq<char>>) {
    let (idx, ip2) = spec_read_u32(m.code, m.ip);
    let m2 = VmV { ip: ip2, ..m };
    if idx as nat >= m.constants.len() {
        (m2, Err("constant index out of bounds"@))
    } else {
        (VmV { stack: m.stack.push(m.constants[idx as int]), ..m2 }, Ok(EffectV::Running))
    }
}

pub open spec fn spec_op_load_global(m: VmV) -> (VmV, Result<EffectV, Seq<char>>) {
    let (gi, ip2) = spec_read_u8(m.code, m.ip);
    let m2 = VmV { ip: ip2, ..m };
    if gi >= 7 {
        (m2, Err("global index out of bounds"@))
    } else {
        match m.globals[gi as int] {
            None => (m2, Err("unset braincell: "@ + spec_braincell_name(gi))),
            Some(v) => (VmV { stack: m.stack.push(v), ..m2 }, Ok(EffectV::Running)),
        }
    }
}

pub open spec fn spec_op_store_global(m: VmV) -> (VmV, Result<EffectV, Seq<char>>) {
    let (gi, ip2) = spec_read_u8(m.code, m.ip);
    let m2 = VmV { ip: ip2, ..m };
    if gi >= 7 {
        (m2, Err("global index out of bounds"@))
    } else if m.stack.len() == 0 {
        (m2, Err("stack underflow"@))
    } else {
        (
            VmV {
                globals: m.globals.update(gi as int, Some(m.stack.last())),
                stack: m.stack.drop_last(),
                ..m2
            },
            Ok(EffectV::Running),
        )
    }
}

pub open spec fn spec_op_add(m: VmV) -> (VmV, Result<EffectV, Seq<char>>) {
    if m.stack.len() == 0 {
        (m, Err("stack underflow"@))
    } else if m.stack.len() == 1 {
        (VmV { stack: m.stack.drop_last(), ..m }, Err("stack underflow"@))
    } else {
        let right = m.stack.last();
        let left = m.stack.drop_last().last();
        let s2 = m.stack.drop_last().drop_last();
        match (left, right) {
            (ValueV::Num(a), ValueV::Num(b)) => (
                VmV { stack: s2, pending: PendingV::Arith, ..m },
                Ok(EffectV::NeedArith { op: ArithOp::Add, a, b }),
            ),
            (ValueV::Str(x), ValueV::Str(y)) => (
                VmV { stack: s2.push(ValueV::Str(x + y)), ..m },
                Ok(EffectV::Running),
            ),
            (ValueV::Num(a), ValueV::Str(y)) => (
                VmV { stack: s2, pending: PendingV::FmtLeft { right: y }, ..m },
                Ok(EffectV::NeedText { bits: a }),
            ),
            (ValueV::Str(x), ValueV::Num(b)) => (
                VmV { stack: s2, pending: PendingV::FmtRight { left: x }, ..m },
                Ok(EffectV::NeedText { bits: b }),
            ),
        }
    }
}

/// Shared shape of the three strictly numeric operations: pop two operands
/// and either request the double arithmetic or fail.
pub open spec fn spec_op_numeric(m: VmV, op: ArithOp, type_msg: Seq<char>) -> (
    VmV,
    Result<EffectV, Seq<char>>,
) {
    if m.stack.len() == 0 {
        (m, Err("stack underflow"@))
    } else if m.stack.len() == 1 {
        (VmV { stack: m.stack.drop_last(), ..m }, Err("stack underflow"@))
    } else {
        let right = m.stack.last();
        let left = m.stack.drop_last().last();
        let s2 = m.stack.drop_last().drop_last();
        match (left, right) {
            (ValueV::Num(a), ValueV::Num(b)) => {
                if op is Div && (b == 0 || b == crate::value::NEG_ZERO_BITS) {
                    (VmV { stack: s2, ..m }, Err("division by zero"@))
                } else {
                    (
                        VmV { stack: s2, pending: PendingV::Arith, ..m },
                        Ok(EffectV::NeedArith { op, a, b }),
                    )
                }
            },
            _ => (VmV { stack: s2, ..m }, Err(type_msg)),
        }
    }
}

pub open spec fn spec_op_sub(m: VmV) -> (VmV, Result<EffectV, Seq<char>>) {
    spec_op_numeric(m, ArithOp::Sub, "subtraction requires both operands to be numbers"@)
}

pub open spec fn spec_op_mul(m: VmV) -> (VmV, Result<EffectV, Seq<char>>) {
    spec_op_numeric(m, ArithOp::Mul, "multiplication requires both operands to be numbers"@)
}

pub open spec fn spec_op_div(m: VmV) -> (VmV, Result<EffectV, Seq<char>>) {
    spec_op_numeric(m, ArithOp::Div, "division requires both operands to be numbers"@)
}

pub open spec fn spec_op_print(m: VmV) -> (VmV, Result<EffectV, Seq<char>>) {
    if m.stack.len() == 0 {
        (m, Err("stack underflow"@))
    } else {
        let v = m.stack.last();
        let m2 = VmV { stack: m.stack.drop_last(), ..m };
        match v {
            ValueV::Str(s) => (m2, Ok(EffectV::Wrote { text: s })),
            ValueV::Num(b) => (
                VmV { pending: PendingV::FmtPrint, ..m2 },
                Ok(EffectV::NeedText { bits: b }),
            ),
        }
    }
}

pub open spec fn spec_op_input(m: VmV) -> (VmV, Result<EffectV, Seq<char>>) {
    (VmV { pending: PendingV::Input, ..m }, Ok(EffectV::NeedLine))
}

pub open spec fn spec_op_jump(m: VmV) -> (VmV, Result<EffectV, Seq<char>>) {
    let (t, ip2) = spec_read_u32(m.code, m.ip);
    if t as nat >= m.code.len() {
        (VmV { ip: ip2, ..m }, Err("jump target out of bounds"@))
    } else {
        (VmV { ip: t as nat, ..m }, Ok(EffectV::Running))
    }
}

pub open spec fn spec_op_jump_if_false(m: VmV) -> (VmV, Result<EffectV, Seq<char>>) {
    if m.stack.len() == 0 {
        (m, Err("stack underflow"@))
    } else {
        let v = m.stack.last();
        let s = m.stack.drop_last();
        let (t, ip2) = spec_read_u32(m.code, m.ip);
        if !spec_truthy(v) {
            if t as nat >= m.code.len() {
                (VmV { stack: s, ip: ip2, ..m }, Err("jump target out of bounds"@))
            } else {
                (VmV { stack: s, ip: t as nat, ..m }, Ok(EffectV::Running))
            }
        } else {
            (VmV { stack: s, ip: ip2, ..m }, Ok(EffectV::Running))
        }
    }
}

pub open spec fn spec_op_hitmeup(m: VmV) -> (VmV, Result<EffectV, Seq<char>>) {
    let (idx, ip2) = spec_read_u32(m.code, m.ip);
    let m2 = VmV { ip: ip2, ..m };
    if m.frames.len() >= 256 {
        (m2, Err("call stack overflow"@))
    } else if idx == 0 {
        if m.stack.len() == 0 {
            (m2, Err("stack underflow"@))
        } else {
            match m.stack.last() {
                ValueV::Str(s) => (
                    VmV { stack: m.stack.drop_last(), pending: PendingV::Transform, ..m2 },
                    Ok(EffectV::NeedParsed { text: s }),
                ),
                ValueV::Num(_) => (
                    VmV { stack: m.stack.drop_last(), ..m2 },
                    Err("TRANSFORM: expected string argument"@),
                ),
            }
        }
    } else if idx == 1 {
        if m.stack.len() == 0 {
            (m2, Err("stack underflow"@))
        } else {
            match m.stack.last() {
                ValueV::Str(s) => (
                    VmV {
                        stack: m.stack.drop_last().push(
                            ValueV::Num(spec_f64_bits_of_count(s.len() as u64)),
                        ),
                        ..m2
                    },
                    Ok(EffectV::Running),
                ),
                ValueV::Num(_) => (
                    VmV { stack: m.stack.drop_last(), ..m2 },
                    Err("RIZZED: expected string argument"@),
                ),
            }
        }
    } else if idx as nat - 2 >= m.functions.len() {
        (m2, Err("function index out of bounds"@))
    } else {
        let f = m.functions[idx as int - 2];
        if m.stack.len() < f.arity as nat {
            (m2, Err("not enough arguments on stack"@))
        } else if (f.local_count as nat) < (f.arity as nat) {
            (m2, Err("local index out of bounds"@))
        } else {
            let n = m.stack.len() as int;
            let locals = Seq::new(
                f.local_count as nat,
                |i: int| if i < f.arity as int {
                    Some(m.stack[n - 1 - i])
                } else {
                    None
                },
            );
            (
                VmV {
                    stack: m.stack.take(n - f.arity as int),
                    frames: m.frames.push(FrameV { ret: ip2, locals }),
                    ip: f.code_offset as nat,
                    ..m
                },
                Ok(EffectV::Running),
            )
        }
    }
}

pub open spec fn spec_op_untilwemeetagain(m: VmV) -> (VmV, Result<EffectV, Seq<char>>) {
    if m.frames.len() == 0 {
        (m, Err("return outside of function"@))
    } else {
        let fr = m.frames.last();
        let frames2 = m.frames.drop_last();
        if m.stack.len() == 0 {
            (VmV { frames: frames2, ..m }, Err("stack underflow"@))
        } else {
            (VmV { frames: frames2, ip: fr.ret, ..m }, Ok(EffectV::Running))
        }
    }
}

pub open spec fn spec_op_tax_local(m: VmV) -> (VmV, Result<EffectV, Seq<char>>) {
    let (li, ip2) = spec_read_u16(m.code, m.ip);
    let m2 = VmV { ip: ip2, ..m };
    if m.frames.len() == 0 {
        (m2, Err("local access outside of function"@))
    } else {
        let fr = m.frames.last();
        if li as nat >= fr.locals.len() {
            (m2, Err("local index out of bounds"@))
        } else {
            match fr.locals[li as int] {
                None => (m2, Err("unset local variable"@)),
                Some(v) => (VmV { stack: m.stack.push(v), ..m2 }, Ok(EffectV::Running)),
            }
        }
    }
}

pub open spec fn spec_op_bigback_local(m: VmV) -> (VmV, Result<EffectV, Seq<char>>) {
    let (li, ip2) = spec_read_u16(m.code, m.ip);
    let m2 = VmV { ip: ip2, ..m };
    if m.frames.len() == 0 {
        (m2, Err("local assignment outside of function"@))
    } else {
        let fr = m.frames.last();
        if li as nat >= fr.locals.len() {
            (m2, Err("local index out of bounds"@))
        } else if m.stack.len() == 0 {
            (m2, Err("stack underflow"@))
        } else {
            let fr2 = FrameV { ret: fr.ret, locals: fr.locals.update(li as int, Some(m.stack.last())) };
            (
                VmV {
                    frames: m.frames.update(m.frames.len() - 1, fr2),
                    stack: m.stack.drop_last(),
                    ..m2
                },
                Ok(EffectV::Running),
            )
        }
    }
}

pub open spec fn spec_op_poopy(m: VmV) -> (VmV, Result<EffectV, Seq<char>>) {
    if m.stack.len() == 0 {
        (m, Err("stack underflow"@))
    } else {
        (VmV { stack: m.stack.drop_last(), ..m }, Ok(EffectV::Running))
    }
}

/// One dispatch of the opcode under the instruction pointer, exactly as the
/// opcode table gives it. Falling off the end of the code halts normally.
pub open spec fn spec_dispatch(m: VmV) -> (VmV, Result<EffectV, Seq<char>>) {
    if m.ip >= m.code.len() {
        (m, Ok(EffectV::Halted))
    } else {
        let op = m.code[m.ip as int];
        let m1 = VmV { ip: (m.ip + 1) as nat, ..m };
        if op == 0x01 {
            (m1, Ok(EffectV::Halted))
        } else if op == 0x02 {
            spec_op_load_const(m1)
        } else if op == 0x03 {
            spec_op_load_global(m1)
        } else if op == 0x04 {
            spec_op_store_global(m1)
        } else if op == 0x05 {
            spec_op_add(m1)
        } else if op == 0x06 {
            spec_op_sub(m1)
        } else if op == 0x07 {
            spec_op_mul(m1)
        } else if op == 0x08 {
            spec_op_div(m1)
        } else if op == 0x09 {
            spec_op_print(m1)
        } else if op == 0x0a {
            spec_op_input(m1)
        } else if op == 0x0b {
            spec_op_jump(m1)
        } else if op == 0x0c {
            spec_op_jump_if_false(m1)
        } else if op == 0x0d {
            spec_op_hitmeup(m1)
        } else if op == 0x0e {
            spec_op_untilwemeetagain(m1)
        } else if op == 0x0f {
            spec_op_tax_local(m1)
        } else if op == 0x10 {
            spec_op_bigback_local(m1)
        } else if op == 0x11 {
            spec_op_poopy(m1)
        } else if op == 0x12 {
            (m1, Ok(EffectV::Halted))
        } else {
            (m1, Err(spec_unknown_opcode_msg(op)))
        }
    }
}

/// One step of the machine: feed in the reply to the previous request (or
/// nothing when idle) and obtain the next effect. This is the whole
/// observable behavior of the machine, one transition at a time.
pub open spec fn spec_step(m: VmV, reply: Option<ReplyV>) -> (VmV, Result<EffectV, Seq<char>>) {
    match (m.pending, reply) {
        (PendingV::Idle, None) => spec_dispatch(m),
        (PendingV::Arith, Some(ReplyV::Bits(b))) => (
            VmV { stack: m.stack.push(ValueV::Num(b)), pending: PendingV::Idle, ..m },
            Ok(EffectV::Running),
        ),
        (PendingV::FmtPrint, Some(ReplyV::Text(t))) => (
            VmV { pending: PendingV::Idle, ..m },
            Ok(EffectV::Wrote { text: t }),
        ),
        (PendingV::FmtLeft { right }, Some(ReplyV::Text(t))) => (
            VmV { stack: m.stack.push(ValueV::Str(t + right)), pending: PendingV::Idle, ..m },
            Ok(EffectV::Running),
        ),
        (PendingV::FmtRight { left }, Some(ReplyV::Text(t))) => (
            VmV { stack: m.stack.push(ValueV::Str(left + t)), pending: PendingV::Idle, ..m },
            Ok(EffectV::Running),
        ),
        (PendingV::Transform, Some(ReplyV::Parsed(Some(bits)))) => (
            VmV { stack: m.stack.push(ValueV::Num(bits)), pending: PendingV::Idle, ..m },
            Ok(EffectV::Running),
        ),
        (PendingV::Transform, Some(ReplyV::Parsed(None))) => (
            VmV { pending: PendingV::Idle, ..m },
            Err("TRANSFORM: invalid number string"@),
        ),
        (PendingV::Input, Some(ReplyV::Line(l))) => (
            VmV { stack: m.stack.push(ValueV::Str(l)), pending: PendingV::Idle, ..m },
            Ok(EffectV::Running),
        ),
        _ => (m, Err("reply does not match the pending request"@)),
    }
}

// ---------------------------------------------------------------------------
// The artifact, as mathematics
// ---------------------------------------------------------------------------

/// Parses `count` constant pool entries starting at `pos`: tag 1 holds the
/// eight little-endian bytes of a double, tag 2 a length-prefixed UTF-8
/// text. Yields the entries and the position after them, or the diagnostic.
pub open spec fn spec_parse_consts(b: Seq<u8>, pos: nat, count: nat) -> Result<
    (Seq<ValueV>, nat),
    Seq<char>,
>
    decreases count,
{
    if count == 0 {
        Ok((Seq::empty(), pos))
    } else if pos >= b.len() {
        Err("invalid constant entry"@)
    } else {
        let tag = b[pos as int];
        if tag == 1 {
            if b.len() < pos + 9 {
                Err("invalid number constant"@)
            } else {
                let bits = crate::wire::u64_from_le(
                    b[pos as int + 1], b[pos as int + 2], b[pos as int + 3], b[pos as int + 4],
                    b[pos as int + 5], b[pos as int + 6], b[pos as int + 7], b[pos as int + 8],
                );
                match spec_parse_consts(b, pos + 9, (count - 1) as nat) {
                    Ok((cs, p)) => Ok((seq![ValueV::Num(bits)] + cs, p)),
                    Err(e) => Err(e),
                }
            }
        } else if tag == 2 {
            if b.len() < pos + 5 {
                Err("invalid string constant"@)
            } else {
                let slen = crate::wire::u32_from_le(
                    b[pos as int + 1], b[pos as int + 2], b[pos as int + 3], b[pos as int + 4],
                ) as nat;
                if b.len() < pos + 5 + slen {
                    Err("invalid string data"@)
                } else {
                    let bytes = b.subrange(pos as int + 5, pos as int + 5 + slen as int);
                    if !vstd::utf8::valid_utf8(bytes) {
                        Err("invalid UTF-8 in string constant"@)
                    } else {
                        match spec_parse_consts(b, pos + 5 + slen, (count - 1) as nat) {
                            Ok((cs, p)) => Ok(
                                (seq![ValueV::Str(vstd::utf8::decode_utf8(bytes))] + cs, p),
                            ),
                            Err(e) => Err(e),
                        }
                    }
                }
            }
        } else {
            Err("unknown constant type"@)
        }
    }
}

/// Parses `count` function table entries starting at `pos`. An entry is a
/// constant index naming the function, its arity, its local slot count and
/// its code offset; the name index must land in the pool of `n_consts`
/// entries. An entry is read only when at least two further bytes follow
/// it; the code section's size field supplies them in a whole artifact.
pub open spec fn spec_parse_funcs(b: Seq<u8>, pos: nat, count: nat, n_consts: nat) -> Result<
    (Seq<FuncMeta>, nat),
    Seq<char>,
>
    decreases count,
{
    if count == 0 {
        Ok((Seq::empty(), pos))
    } else if b.len() < pos + 14 {
        Err("invalid function entry"@)
    } else {
        let name_idx = crate::wire::u32_from_le(b[pos as int], b[pos as int + 1], b[pos as int + 2], b[pos as int + 3]);
        let arity = crate::wire::u16_from_le(b[pos as int + 4], b[pos as int + 5]);
        let local_count = crate::wire::u16_from_le(b[pos as int + 6], b[pos as int + 7]);
        let code_offset = crate::wire::u32_from_le(b[pos as int + 8], b[pos as int + 9], b[pos as int + 10], b[pos as int + 11]);
        if name_idx as nat >= n_consts {
            Err("invalid function entry"@)
        } else {
            match spec_parse_funcs(b, pos + 12, (count - 1) as nat, n_consts) {
                Ok((fs, p)) => Ok((seq![FuncMeta { name_const_idx: name_idx, arity, local_count, code_offset }] + fs, p)),
                Err(e) => Err(e),
            }
        }
    }
}

/// The code section: a size and that many bytes. Trailing bytes after the
/// section are ignored.
pub open spec fn spec_parse_code(b: Seq<u8>, pos: nat) -> Result<Seq<u8>, Seq<char>> {
    if b.len() < pos + 4 {
        Err("invalid code section header"@)
    } else {
        let size = crate::wire::u32_from_le(b[pos as int], b[pos as int + 1], b[pos as int + 2], b[pos as int + 3]) as nat;
        if b.len() < pos + 4 + size {
            Err("invalid code data"@)
        } else {
            Ok(b.subrange(pos as int + 4, pos as int + 4 + size as int))
        }
    }
}

/// The whole artifact: magic, version and flags, constant pool, function
/// table (present from version four on), code section.
pub open spec fn spec_parse_artifact(b: Seq<u8>) -> Result<
    (Seq<ValueV>, Seq<FuncMeta>, Seq<u8>),
    Seq<char>,
> {
    if b.len() < 4 || b[0] != 66 || b[1] != 82 || b[2] != 66 || b[3] != 67 {
        Err("invalid bytecode file"@)
    } else if b.len() < 8 {
        Err("invalid bytecode header"@)
    } else {
        let version = crate::wire::u16_from_le(b[4], b[5]);
        if b.len() < 12 {
            Err("invalid constant pool header"@)
        } else {
            let cc = crate::wire::u32_from_le(b[8], b[9], b[10], b[11]);
            match spec_parse_consts(b, 12, cc as nat) {
                Err(e) => Err(e),
                Ok((cs, p)) => {
                    if version >= 4 {
                        if b.len() < p + 4 {
                            Err("invalid function table header"@)
                        } else {
                            let fc = crate::wire::u32_from_le(
                                b[p as int], b[p as int + 1], b[p as int + 2], b[p as int + 3],
                            );
                            match spec_parse_funcs(b, p + 4, fc as nat, cs.len()) {
                                Err(e) => Err(e),
                                Ok((fs, p2)) => match spec_parse_code(b, p2) {
                                    Err(e) => Err(e),
                                    Ok(code) => Ok((cs, fs, code)),
                                },
                            }
                        }
                    } else {
                        match spec_parse_code(b, p) {
                            Err(e) => Err(e),
                            Ok(code) => Ok((cs, Seq::<FuncMeta>::empty(), code)),
                        }
                    }
                },
            }
        }
    }
}

// ---------------------------------------------------------------------------
// The machine itself
// ---------------------------------------------------------------------------

impl Vm {
    pub fn op_load_const(&mut self) -> (r: Result<Effect, RuntimeError>)
        requires
            old(self).wf(),
        ensures
            final(self).wf(),
            (final(self)@, res_v(r)) == spec_op_load_const(old(self)@),
    {
        let idx = self.read_u32();
        if idx as usize >= self.constants.len() {
            return Err(RuntimeError::new("constant index out of bounds"));
        }
        let v = self.constants[idx as usize].clone();
        proof {
            lemma_vals_push(self.stack@, v);
        }
        self.stack.push(v);
        Ok(Effect::Running)
    }

    pub fn op_load_global(&mut self) -> (r: Result<Effect, RuntimeError>)
        requires
            old(self).wf(),
        ensures
            final(self).wf(),
            (final(self)@, res_v(r)) == spec_op_load_global(old(self)@),
    {
        let idx = self.read_u8();
        if idx >= 7 {
            return Err(RuntimeError::new("global index out of bounds"));
        }
        let slot = &self.globals[idx as usize];
        match slot {
            None => {
                let msg = "unset braincell: ".to_owned().concat(braincell_name(idx));
                Err(RuntimeError::new(msg.as_str()))
            },
            Some(v) => {
                let v = v.clone();
                proof {
                    lemma_vals_push(self.stack@, v);
                }
                self.stack.push(v);
                Ok(Effect::Running)
            },
        }
    }

    pub fn op_store_global(&mut self) -> (r: Result<Effect, RuntimeError>)
        requires
            old(self).wf(),
        ensures
            final(self).wf(),
            (final(self)@, res_v(r)) == spec_op_store_global(old(self)@),
    {
        let idx = self.read_u8();
        if idx >= 7 {
            return Err(RuntimeError::new("global index out of bounds"));
        }
        let value = match self.stack.pop() {
            Some(v) => v,
            None => {
                return Err(RuntimeError::new("stack underflow"));
            },
        };
        proof {
            lemma_vals_drop(old(self).stack@);
            lemma_opts_update(self.globals@, idx as int, Some(value));
        }
        self.globals[idx as usize] = Some(value);
        Ok(Effect::Running)
    }

    /// Pops the two operands of a binary operation, right first, as the
    /// dispatch loop does; fails with a stack underflow if either is missing.
    fn pop_two(&mut self) -> (r: Result<(Value, Value), RuntimeError>)
        ensures
            ({
                let m = old(self)@;
                match r {
                    Ok(p) => m.stack.len() >= 2
                        && p.0@ == m.stack[m.stack.len() - 2]
                        && p.1@ == m.stack[m.stack.len() - 1]
                        && final(self)@ == (VmV { stack: m.stack.drop_last().drop_last(), ..m }),
                    Err(e) => e@ == "stack underflow"@
                        && (if m.stack.len() == 0 {
                            final(self)@ == m
                        } else {
                            m.stack.len() == 1 && final(self)@ == (VmV { stack: m.stack.drop_last(), ..m })
                        }),
                }
            }),
    {
        let right = match self.stack.pop() {
            Some(v) => v,
            None => {
                return Err(RuntimeError::new("stack underflow"));
            },
        };
        proof {
            lemma_vals_drop(old(self).stack@);
        }
        let left = match self.stack.pop() {
            Some(v) => v,
            None => {
                return Err(RuntimeError::new("stack underflow"));
            },
        };
        proof {
            lemma_vals_drop(old(self).stack@.drop_last());
        }
        Ok((left, right))
    }

    pub fn op_add(&mut self) -> (r: Result<Effect, RuntimeError>)
        requires
            old(self).wf(),
        ensures
            final(self).wf(),
            (final(self)@, res_v(r)) == spec_op_add(old(self)@),
    {
        let (left, right) = match self.pop_two() {
            Ok(p) => p,
            Err(e) => {
                return Err(e);
            },
        };
        match left.add(&right) {
            AddPlan::Bits { a, b } => {
                self.pending = Pending::Arith;
                Ok(Effect::NeedArith { op: ArithOp::Add, a, b })
            },
            AddPlan::Joined(s) => {
                proof {
                    lemma_vals_push(self.stack@, Value::Str(s));
                }
                self.stack.push(Value::Str(s));
                Ok(Effect::Running)
            },
            AddPlan::FmtLeft { a, right: rtext } => {
                self.pending = Pending::FmtLeft { right: rtext };
                Ok(Effect::NeedText { bits: a })
            },
            AddPlan::FmtRight { left: ltext, b } => {
                self.pending = Pending::FmtRight { left: ltext };
                Ok(Effect::NeedText { bits: b })
            },
        }
    }

    /// The shared body of the three strictly numeric operations.
    fn numeric_op(&mut self, op: ArithOp) -> (r: Result<Effect, RuntimeError>)
        requires
            old(self).wf(),
            !(op is Add),
        ensures
            final(self).wf(),
            (final(self)@, res_v(r)) == spec_op_numeric(
                old(self)@,
                op,
                if op is Sub {
                    "subtraction requires both operands to be numbers"@
                } else if op is Mul {
                    "multiplication requires both operands to be numbers"@
                } else {
                    "division requires both operands to be numbers"@
                },
            ),
    {
        let (left, right) = match self.pop_two() {
            Ok(p) => p,
            Err(e) => {
                return Err(e);
            },
        };
        let pair = match op {
            ArithOp::Sub => left.sub(&right),
            ArithOp::Mul => left.mul(&right),
            _ => left.div(&right),
        };
        match pair {
            Ok((a, b)) => {
                self.pending = Pending::Arith;
                Ok(Effect::NeedArith { op, a, b })
            },
            Err(m) => Err(RuntimeError::new(m.as_str())),
        }
    }

    pub fn op_sub(&mut self) -> (r: Result<Effect, RuntimeError>)
        requires
            old(self).wf(),
        ensures
            final(self).wf(),
            (final(self)@, res_v(r)) == spec_op_sub(old(self)@),
    {
        self.numeric_op(ArithOp::Sub)
    }

    pub fn op_mul(&mut self) -> (r: Result<Effect, RuntimeError>)
        requires
            old(self).wf(),
        ensures
            final(self).wf(),
            (final(self)@, res_v(r)) == spec_op_mul(old(self)@),
    {
        self.numeric_op(ArithOp::Mul)
    }

    pub fn op_div(&mut self) -> (r: Result<Effect, RuntimeError>)
        requires
            old(self).wf(),
        ensures
            final(self).wf(),
            (final(self)@, res_v(r)) == spec_op_div(old(self)@),
    {
        self.numeric_op(ArithOp::Div)
    }

    pub fn op_print(&mut self) -> (r: Result<Effect, RuntimeError>)
        requires
            old(self).wf(),
        ensures
            final(self).wf(),
            (final(self)@, res_v(r)) == spec_op_print(old(self)@),
    {
        let value = match self.stack.pop() {
            Some(v) => v,
            None => {
                return Err(RuntimeError::new("stack underflow"));
            },
        };
        proof {
            lemma_vals_drop(old(self).stack@);
        }
        match value {
            Value::Str(s) => Ok(Effect::Wrote { text: s }),
            Value::Num(b) => {
                self.pending = Pending::FmtPrint;
                Ok(Effect::NeedText { bits: b })
            },
        }
    }

    pub fn op_input(&mut self) -> (r: Result<Effect, RuntimeError>)
        requires
            old(self).wf(),
        ensures
            final(self).wf(),
            (final(self)@, res_v(r)) == spec_op_input(old(self)@),
    {
        self.pending = Pending::Input;
        Ok(Effect::NeedLine)
    }

    pub fn op_jump(&mut self) -> (r: Result<Effect, RuntimeError>)
        requires
            old(self).wf(),
        ensures
            final(self).wf(),
            (final(self)@, res_v(r)) == spec_op_jump(old(self)@),
    {
        let target = self.read_u32();
        if target as usize >= self.code.len() {
            return Err(RuntimeError::new("jump target out of bounds"));
        }
        self.ip = target as usize;
        Ok(Effect::Running)
    }

    pub fn op_jump_if_false(&mut self) -> (r: Result<Effect, RuntimeError>)
        requires
            old(self).wf(),
        ensures
            final(self).wf(),
            (final(self)@, res_v(r)) == spec_op_jump_if_false(old(self)@),
    {
        let value = match self.stack.pop() {
            Some(v) => v,
            None => {
                return Err(RuntimeError::new("stack underflow"));
            },
        };
        proof {
            lemma_vals_drop(old(self).stack@);
        }
        let target = self.read_u32();
        if !is_truthy(&value) {
            if target as usize >= self.code.len() {
                return Err(RuntimeError::new("jump target out of bounds"));
            }
            self.ip = target as usize;
        }
        Ok(Effect::Running)
    }

    pub fn op_hitmeup(&mut self) -> (r: Result<Effect, RuntimeError>)
        requires
            old(self).wf(),
        ensures
            final(self).wf(),
            (final(self)@, res_v(r)) == spec_op_hitmeup(old(self)@),
    {
        let func_idx = self.read_u32();
        if self.call_stack.len() >= 256 {
            return Err(RuntimeError::new("call stack overflow"));
        }
        if func_idx == 0 {
            let value = match self.stack.pop() {
                Some(v) => v,
                None => {
                    return Err(RuntimeError::new("stack underflow"));
                },
            };
            proof {
                lemma_vals_drop(old(self).stack@);
            }
            match value {
                Value::Str(s) => {
                    self.pending = Pending::Transform;
                    return Ok(Effect::NeedParsed { text: s });
                },
                Value::Num(_) => {
                    return Err(RuntimeError::new("TRANSFORM: expected string argument"));
                },
            }
        }
        if func_idx == 1 {
            let value = match self.stack.pop() {
                Some(v) => v,
                None => {
                    return Err(RuntimeError::new("stack underflow"));
                },
            };
            proof {
                lemma_vals_drop(old(self).stack@);
            }
            match value {
                Value::Str(s) => {
                    let count = s.as_str().unicode_len();
                    let bits = f64_bits_of_count(count as u64);
                    proof {
                        lemma_vals_push(self.stack@, Value::Num(bits));
                    }
                    self.stack.push(Value::Num(bits));
                    return Ok(Effect::Running);
                },
                Value::Num(_) => {
                    return Err(RuntimeError::new("RIZZED: expected string argument"));
                },
            }
        }
        if (func_idx - 2) as usize >= self.functions.len() {
            return Err(RuntimeError::new("function index out of bounds"));
        }
        let f = self.functions[(func_idx - 2) as usize];
        let arity = f.arity as usize;
        if self.stack.len() < arity {
            return Err(RuntimeError::new("not enough arguments on stack"));
        }
        if (f.local_count as usize) < arity {
            return Err(RuntimeError::new("local index out of bounds"));
        }
        let ret_addr = self.ip;
        let ghost snap = self@;
        let ghost s0 = self@.stack;
        let mut locals: Vec<Option<Value>> = Vec::new();
        let mut i: usize = 0;
        while i < arity
            invariant
                i <= arity,
                arity <= s0.len(),
                self@ == (VmV { stack: s0.take(s0.len() - i), ..snap }),
                opts_v(locals@) == Seq::new(i as nat, |j: int| Some(s0[s0.len() - 1 - j])),
            decreases arity - i,
        {
            let ghost pre = self.stack@;
            proof {
                lemma_vals_drop(pre);
                assert(s0.take(s0.len() - i).drop_last() =~= s0.take(s0.len() - (i + 1)));
            }
            let v = self.stack.pop().unwrap();
            proof {
                assert(vals_v(pre) == s0.take(s0.len() - i));
                assert(vals_v(pre).last() == pre.last()@);
                assert(v@ == s0.take(s0.len() - i).last());
                assert(v@ == s0[s0.len() - 1 - i]);
                lemma_opts_push(locals@, Some(v));
            }
            locals.push(Some(v));
            proof {
                assert(opts_v(locals@) =~= Seq::new(
                    (i + 1) as nat,
                    |j: int| Some(s0[s0.len() - 1 - j]),
                ));
            }
            i = i + 1;
        }
        let local_count = f.local_count as usize;
        while locals.len() < local_count
            invariant
                locals@.len() <= local_count,
                arity <= local_count,
                arity <= s0.len(),
                self@ == (VmV { stack: s0.take(s0.len() - arity), ..snap }),
                opts_v(locals@) == Seq::new(
                    locals@.len() as nat,
                    |j: int| if j < arity { Some(s0[s0.len() - 1 - j]) } else { None },
                ),
                locals@.len() >= arity,
            decreases local_count - locals@.len(),
        {
            proof {
                lemma_opts_push(locals@, None);
            }
            locals.push(None);
            proof {
                assert(opts_v(locals@) =~= Seq::new(
                    locals@.len() as nat,
                    |j: int| if j < arity { Some(s0[s0.len() - 1 - j]) } else { None },
                ));
            }
        }
        let frame = Frame { return_address: ret_addr, locals };
        proof {
            lemma_frames_push(self.call_stack@, frame);
        }
        self.call_stack.push(frame);
        self.ip = f.code_offset as usize;
        proof {
            assert(self@.frames =~= spec_op_hitmeup(old(self)@).0.frames);
            assert(self@ =~= spec_op_hitmeup(old(self)@).0);
        }
        Ok(Effect::Running)
    }

    pub fn op_untilwemeetagain(&mut self) -> (r: Result<Effect, RuntimeError>)
        requires
            old(self).wf(),
        ensures
            final(self).wf(),
            (final(self)@, res_v(r)) == spec_op_untilwemeetagain(old(self)@),
    {
        let frame = match self.call_stack.pop() {
            Some(fr) => fr,
            None => {
                return Err(RuntimeError::new("return outside of function"));
            },
        };
        proof {
            lemma_frames_drop(old(self).call_stack@);
        }
        let ret_val = match self.stack.pop() {
            Some(v) => v,
            None => {
                return Err(RuntimeError::new("stack underflow"));
            },
        };
        proof {
            lemma_vals_drop(old(self).stack@);
        }
        self.ip = frame.return_address;
        proof {
            lemma_vals_push(self.stack@, ret_val);
            assert(vals_v(old(self).stack@).drop_last().push(ret_val@) =~= vals_v(
                old(self).stack@,
            ));
        }
        self.stack.push(ret_val);
        Ok(Effect::Running)
    }

    pub fn op_tax_local(&mut self) -> (r: Result<Effect, RuntimeError>)
        requires
            old(self).wf(),
        ensures
            final(self).wf(),
            (final(self)@, res_v(r)) == spec_op_tax_local(old(self)@),
    {
        let local_idx = self.read_u16();
        if self.call_stack.len() == 0 {
            return Err(RuntimeError::new("local access outside of function"));
        }
        let fi = self.call_stack.len() - 1;
        if local_idx as usize >= self.call_stack[fi].locals.len() {
            return Err(RuntimeError::new("local index out of bounds"));
        }
        let slot = &self.call_stack[fi].locals[local_idx as usize];
        match slot {
            None => Err(RuntimeError::new("unset local variable")),
            Some(v) => {
                let v = v.clone();
                proof {
                    lemma_vals_push(self.stack@, v);
                }
                self.stack.push(v);
                Ok(Effect::Running)
            },
        }
    }

    pub fn op_bigback_local(&mut self) -> (r: Result<Effect, RuntimeError>)
        requires
            old(self).wf(),
        ensures
            final(self).wf(),
            (final(self)@, res_v(r)) == spec_op_bigback_local(old(self)@),
    {
        let local_idx = self.read_u16();
        if self.call_stack.len() == 0 {
            return Err(RuntimeError::new("local assignment outside of function"));
        }
        let fi = self.call_stack.len() - 1;
        if local_idx as usize >= self.call_stack[fi].locals.len() {
            return Err(RuntimeError::new("local index out of bounds"));
        }
        let value = match self.stack.pop() {
            Some(v) => v,
            None => {
                return Err(RuntimeError::new("stack underflow"));
            },
        };
        proof {
            lemma_vals_drop(old(self).stack@);
        }
        let mut frame = self.call_stack.pop().unwrap();
        proof {
            lemma_opts_update(frame.locals@, local_idx as int, Some(value));
        }
        frame.locals[local_idx as usize] = Some(value);
        self.call_stack.push(frame);
        proof {
            assert(self@.frames =~= spec_op_bigback_local(old(self)@).0.frames);
            assert(self@ =~= spec_op_bigback_local(old(self)@).0);
        }
        Ok(Effect::Running)
    }

    /// An empty machine: no tables, seven unset globals, idle.
    fn new() -> (vm: Vm)
        ensures
            vm@ == (VmV {
                constants: Seq::empty(),
                globals: Seq::new(7, |i: int| None),
                stack: Seq::empty(),
                frames: Seq::empty(),
                functions: Seq::empty(),
                code: Seq::empty(),
                ip: 0,
                pending: PendingV::Idle,
            }),
            vm.wf(),
    {
        let vm = Vm {
            constants: Vec::new(),
            globals: vec![None, None, None, None, None, None, None],
            stack: Vec::new(),
            call_stack: Vec::new(),
            functions: Vec::new(),
            code: Vec::new(),
            ip: 0,
            pending: Pending::Idle,
        };
        proof {
            assert(vm@.globals =~= Seq::new(7, |i: int| None::<ValueV>));
            assert(vm@.constants =~= Seq::<ValueV>::empty());
            assert(vm@.stack =~= Seq::<ValueV>::empty());
            assert(vm@.frames =~= Seq::<FrameV>::empty());
            assert(vm@.functions =~= Seq::<FuncMeta>::empty());
            assert(vm@.code =~= Seq::<u8>::empty());
            assert(vm@ =~= (VmV {
                constants: Seq::empty(),
                globals: Seq::new(7, |i: int| None),
                stack: Seq::empty(),
                frames: Seq::empty(),
                functions: Seq::empty(),
                code: Seq::empty(),
                ip: 0,
                pending: PendingV::Idle,
            }));
        }
        vm
    }

    /// Parses an artifact into the machine's tables, exactly as
    /// [`spec_parse_artifact`] reads it; on any malformation the machine is
    /// left as it was and the diagnostic says what was wrong.
    #[verifier::loop_isolation(false)]
    #[verifier::rlimit(100)]
    pub fn load(&mut self, bytecode: &[u8]) -> (r: Result<(), RuntimeError>)
        requires
            old(self).wf(),
        ensures
            final(self).wf(),
            match r {
                Ok(()) => spec_parse_artifact(bytecode@) matches Ok(t) && final(self)@ == (VmV {
                    constants: t.0,
                    functions: t.1,
                    code: t.2,
                    ip: 0,
                    ..old(self)@
                }),
                Err(e) => spec_parse_artifact(bytecode@) matches Err(m) && e@ == m
                    && final(self)@ == old(self)@,
            },
    {
        let n = bytecode.len();
        if n < 4 || bytecode[0] != 66 || bytecode[1] != 82 || bytecode[2] != 66 || bytecode[3]
            != 67 {
            return Err(RuntimeError::new("invalid bytecode file"));
        }
        if n < 8 {
            return Err(RuntimeError::new("invalid bytecode header"));
        }
        let version = crate::wire::read_u16_le(bytecode[4], bytecode[5]);
        if n < 12 {
            return Err(RuntimeError::new("invalid constant pool header"));
        }
        let cc = crate::wire::read_u32_le(bytecode[8], bytecode[9], bytecode[10], bytecode[11]);
        let ghost bv = bytecode@;
        let mut consts: Vec<Value> = Vec::new();
        let mut pos: usize = 12;
        let mut k: u32 = 0;
        while k < cc
            invariant
                12 <= pos <= n,
                n == bv.len(),
                k <= cc,
                bv == bytecode@,
                match spec_parse_consts(bv, pos as nat, (cc - k) as nat) {
                    Ok(t) => spec_parse_consts(bv, 12, cc as nat) == Ok::<
                        (Seq<ValueV>, nat),
                        Seq<char>,
                    >((vals_v(consts@) + t.0, t.1)),
                    Err(e) => spec_parse_consts(bv, 12, cc as nat) == Err::<
                        (Seq<ValueV>, nat),
                        Seq<char>,
                    >(e),
                },
            decreases cc - k,
        {
            if pos >= n {
                return Err(RuntimeError::new("invalid constant entry"));
            }
            let tag = bytecode[pos];
            if tag == 1 {
                if n - pos < 9 {
                    return Err(RuntimeError::new("invalid number constant"));
                }
                let bits = crate::wire::read_u64_le(
                    bytecode[pos + 1],
                    bytecode[pos + 2],
                    bytecode[pos + 3],
                    bytecode[pos + 4],
                    bytecode[pos + 5],
                    bytecode[pos + 6],
                    bytecode[pos + 7],
                    bytecode[pos + 8],
                );
                let ghost posn = pos as nat;
                let ghost cnt = (cc - k) as nat;
                let ghost c0 = consts@;
                proof {
                    assert(spec_parse_consts(bv, posn, cnt) == (match spec_parse_consts(
                        bv,
                        posn + 9,
                        (cnt - 1) as nat,
                    ) {
                        Ok(t) => Ok::<(Seq<ValueV>, nat), Seq<char>>(
                            (seq![ValueV::Num(bits)] + t.0, t.1),
                        ),
                        Err(e) => Err::<(Seq<ValueV>, nat), Seq<char>>(e),
                    }));
                    lemma_vals_push(c0, Value::Num(bits));
                }
                consts.push(Value::Num(bits));
                pos = pos + 9;
                proof {
                    assert(consts@ == c0.push(Value::Num(bits)));
                    if spec_parse_consts(bv, pos as nat, (cnt - 1) as nat) is Ok {
                        let t = spec_parse_consts(bv, pos as nat, (cnt - 1) as nat)->Ok_0;
                        assert(spec_parse_consts(bv, posn, cnt) == Ok::<
                            (Seq<ValueV>, nat),
                            Seq<char>,
                        >((seq![ValueV::Num(bits)] + t.0, t.1)));
                        assert((vals_v(c0) + (seq![ValueV::Num(bits)] + t.0)) =~= (vals_v(
                            consts@,
                        ) + t.0));
                    }
                }
            } else if tag == 2 {
                if n - pos < 5 {
                    return Err(RuntimeError::new("invalid string constant"));
                }
                let slen = crate::wire::read_u32_le(
                    bytecode[pos + 1],
                    bytecode[pos + 2],
                    bytecode[pos + 3],
                    bytecode[pos + 4],
                ) as usize;
                if n - (pos + 5) < slen {
                    return Err(RuntimeError::new("invalid string data"));
                }
                let mut bytes: Vec<u8> = Vec::new();
                let mut j: usize = 0;
                while j < slen
                    invariant
                        j <= slen,
                        pos + 5 + slen <= n,
                        n == bv.len(),
                        bv == bytecode@,
                        bytes@ == bv.subrange(pos as int + 5, pos as int + 5 + j as int),
                    decreases slen - j,
                {
                    proof {
                        assert(bv.subrange(pos as int + 5, pos as int + 5 + (j + 1) as int)
                            =~= bv.subrange(pos as int + 5, pos as int + 5 + j as int).push(
                            bv[pos as int + 5 + j as int],
                        ));
                    }
                    bytes.push(bytecode[pos + 5 + j]);
                    j = j + 1;
                }
                let s = match crate::text::string_from_utf8(bytes) {
                    Some(s) => s,
                    None => {
                        return Err(RuntimeError::new("invalid UTF-8 in string constant"));
                    },
                };
                let ghost posn = pos as nat;
                let ghost cnt = (cc - k) as nat;
                let ghost sbytes = bv.subrange(posn as int + 5, posn as int + 5 + slen as int);
                let ghost c0 = consts@;
                proof {
                    assert(vstd::utf8::valid_utf8(sbytes));
                    assert(s@ == vstd::utf8::decode_utf8(sbytes));
                    assert(spec_parse_consts(bv, posn, cnt) == (match spec_parse_consts(
                        bv,
                        posn + 5 + slen as nat,
                        (cnt - 1) as nat,
                    ) {
                        Ok(t) => Ok::<(Seq<ValueV>, nat), Seq<char>>(
                            (seq![ValueV::Str(vstd::utf8::decode_utf8(sbytes))] + t.0, t.1),
                        ),
                        Err(e) => Err::<(Seq<ValueV>, nat), Seq<char>>(e),
                    }));
                    lemma_vals_push(c0, Value::Str(s));
                }
                consts.push(Value::Str(s));
                pos = pos + 5 + slen;
                proof {
                    assert(consts@ == c0.push(Value::Str(s)));
                    if spec_parse_consts(bv, pos as nat, (cnt - 1) as nat) is Ok {
                        let t = spec_parse_consts(bv, pos as nat, (cnt - 1) as nat)->Ok_0;
                        let v = ValueV::Str(vstd::utf8::decode_utf8(sbytes));
                        assert(spec_parse_consts(bv, posn, cnt) == Ok::<
                            (Seq<ValueV>, nat),
                            Seq<char>,
                        >((seq![v] + t.0, t.1)));
                        assert((vals_v(c0) + (seq![v] + t.0)) =~= (vals_v(consts@) + t.0));
                    }
                }
            } else {
                return Err(RuntimeError::new("unknown constant type"));
            }
            k = k + 1;
        }
        proof {
            assert(spec_parse_consts(bv, pos as nat, 0) == Ok::<(Seq<ValueV>, nat), Seq<char>>((
                Seq::empty(),
                pos as nat,
            )));
            assert((vals_v(consts@) + Seq::empty()) =~= vals_v(consts@));
        }
        let mut funcs: Vec<FuncMeta> = Vec::new();
        if version >= 4 {
            if n - pos < 4 {
                return Err(RuntimeError::new("invalid function table header"));
            }
            let fc = crate::wire::read_u32_le(
                bytecode[pos],
                bytecode[pos + 1],
                bytecode[pos + 2],
                bytecode[pos + 3],
            );
            pos = pos + 4;
            let ghost pos0_f = pos;
            let mut fk: u32 = 0;
            while fk < fc
                invariant
                    pos <= n,
                    n == bv.len(),
                    fk <= fc,
                    bv == bytecode@,
                    match spec_parse_funcs(bv, pos as nat, (fc - fk) as nat, vals_v(consts@).len()) {
                        Ok(t) => spec_parse_funcs(bv, (pos0_f) as nat, fc as nat, vals_v(consts@).len())
                            == Ok::<(Seq<FuncMeta>, nat), Seq<char>>((funcs@ + t.0, t.1)),
                        Err(e) => spec_parse_funcs(bv, (pos0_f) as nat, fc as nat, vals_v(consts@).len())
                            == Err::<(Seq<FuncMeta>, nat), Seq<char>>(e),
                    },
                decreases fc - fk,
            {
                if n - pos < 14 {
                    return Err(RuntimeError::new("invalid function entry"));
                }
                let name_idx = crate::wire::read_u32_le(
                    bytecode[pos],
                    bytecode[pos + 1],
                    bytecode[pos + 2],
                    bytecode[pos + 3],
                );
                let arity = crate::wire::read_u16_le(bytecode[pos + 4], bytecode[pos + 5]);
                let local_count = crate::wire::read_u16_le(bytecode[pos + 6], bytecode[pos + 7]);
                let code_offset = crate::wire::read_u32_le(
                    bytecode[pos + 8],
                    bytecode[pos + 9],
                    bytecode[pos + 10],
                    bytecode[pos + 11],
                );
                if name_idx as usize >= consts.len() {
                    return Err(RuntimeError::new("invalid function entry"));
                }
                let ghost posn = pos as nat;
                let ghost cnt = (fc - fk) as nat;
                let ghost nc = vals_v(consts@).len();
                proof {
                    assert(spec_parse_funcs(bv, posn, cnt, nc) == (match spec_parse_funcs(
                        bv,
                        posn + 12,
                        (cnt - 1) as nat,
                        nc,
                    ) {
                        Ok(t) => Ok::<(Seq<FuncMeta>, nat), Seq<char>>(
                            (seq![FuncMeta { name_const_idx: name_idx, arity, local_count, code_offset }] + t.0, t.1),
                        ),
                        Err(e) => Err::<(Seq<FuncMeta>, nat), Seq<char>>(e),
                    }));
                }
                let ghost f0 = funcs@;
                funcs.push(FuncMeta { name_const_idx: name_idx, arity, local_count, code_offset });
                pos = pos + 12;
                proof {
                    assert(funcs@ == f0.push(FuncMeta { name_const_idx: name_idx, arity, local_count, code_offset }));
                    if spec_parse_funcs(bv, pos as nat, (cnt - 1) as nat, nc) is Ok {
                        let t = spec_parse_funcs(bv, pos as nat, (cnt - 1) as nat, nc)->Ok_0;
                        assert(spec_parse_funcs(bv, posn, cnt, nc) == Ok::<
                            (Seq<FuncMeta>, nat),
                            Seq<char>,
                        >((seq![FuncMeta { name_const_idx: name_idx, arity, local_count, code_offset }] + t.0, t.1)));
                        assert((f0 + (seq![FuncMeta { name_const_idx: name_idx, arity, local_count, code_offset }] + t.0))
                            =~= (funcs@ + t.0));
                    }
                }
                fk = fk + 1;
            }
            proof {
                assert((funcs@ + Seq::empty()) =~= funcs@);
            }
        }
        if n - pos < 4 {
            return Err(RuntimeError::new("invalid code section header"));
        }
        let size = crate::wire::read_u32_le(
            bytecode[pos],
            bytecode[pos + 1],
            bytecode[pos + 2],
            bytecode[pos + 3],
        ) as usize;
        pos = pos + 4;
        if n - pos < size {
            return Err(RuntimeError::new("invalid code data"));
        }
        let mut codevec: Vec<u8> = Vec::new();
        let mut j: usize = 0;
        while j < size
            invariant
                j <= size,
                pos + size <= n,
                n == bv.len(),
                bv == bytecode@,
                codevec@ == bv.subrange(pos as int, pos as int + j as int),
            decreases size - j,
        {
            proof {
                assert(bv.subrange(pos as int, pos as int + (j + 1) as int) =~= bv.subrange(
                    pos as int,
                    pos as int + j as int,
                ).push(bv[pos as int + j as int]));
            }
            codevec.push(bytecode[pos + j]);
            j = j + 1;
        }
        self.constants = consts;
        self.functions = funcs;
        self.code = codevec;
        self.ip = 0;
        Ok(())
    }

    /// Dispatches the single opcode under the instruction pointer.
    fn dispatch(&mut self) -> (r: Result<Effect, RuntimeError>)
        requires
            old(self).wf(),
        ensures
            final(self).wf(),
            (final(self)@, res_v(r)) == spec_dispatch(old(self)@),
    {
        if self.ip >= self.code.len() {
            return Ok(Effect::Halted);
        }
        let op = self.code[self.ip];
        self.ip = self.ip + 1;
        match op {
            0x01 => Ok(Effect::Halted),
            0x02 => self.op_load_const(),
            0x03 => self.op_load_global(),
            0x04 => self.op_store_global(),
            0x05 => self.op_add(),
            0x06 => self.op_sub(),
            0x07 => self.op_mul(),
            0x08 => self.op_div(),
            0x09 => self.op_print(),
            0x0a => self.op_input(),
            0x0b => self.op_jump(),
            0x0c => self.op_jump_if_false(),
            0x0d => self.op_hitmeup(),
            0x0e => self.op_untilwemeetagain(),
            0x0f => self.op_tax_local(),
            0x10 => self.op_bigback_local(),
            0x11 => self.op_poopy(),
            0x12 => Ok(Effect::Halted),
            _ => {
                let msg = unknown_opcode_msg(op);
                Err(RuntimeError::new(msg.as_str()))
            },
        }
    }

    /// Performs one step of the machine. When the machine is idle, pass no
    /// reply and the next opcode is dispatched; after an effect that
    /// requests something, pass the matching reply. The whole transition is
    /// pinned by [`spec_step`].
    pub fn step(&mut self, reply: Option<Reply>) -> (r: Result<Effect, RuntimeError>)
        requires
            old(self).wf(),
        ensures
            final(self).wf(),
            (final(self)@, res_v(r)) == spec_step(old(self)@, reply_v(reply)),
    {
        let mut p = Pending::Idle;
        core::mem::swap(&mut p, &mut self.pending);
        match (p, reply) {
            (Pending::Idle, None) => self.dispatch(),
            (Pending::Arith, Some(Reply::Bits(b))) => {
                proof {
                    lemma_vals_push(self.stack@, Value::Num(b));
                }
                self.stack.push(Value::Num(b));
                Ok(Effect::Running)
            },
            (Pending::FmtPrint, Some(Reply::Text(t))) => Ok(Effect::Wrote { text: t }),
            (Pending::FmtLeft { right }, Some(Reply::Text(t))) => {
                let joined = t.concat(right.as_str());
                proof {
                    lemma_vals_push(self.stack@, Value::Str(joined));
                }
                self.stack.push(Value::Str(joined));
                Ok(Effect::Running)
            },
            (Pending::FmtRight { left }, Some(Reply::Text(t))) => {
                let joined = left.concat(t.as_str());
                proof {
                    lemma_vals_push(self.stack@, Value::Str(joined));
                }
                self.stack.push(Value::Str(joined));
                Ok(Effect::Running)
            },
            (Pending::Transform, Some(Reply::Parsed(parsed))) => {
                match parsed {
                    Some(bits) => {
                        proof {
                            lemma_vals_push(self.stack@, Value::Num(bits));
                        }
                        self.stack.push(Value::Num(bits));
                        Ok(Effect::Running)
                    },
                    None => Err(RuntimeError::new("TRANSFORM: invalid number string")),
                }
            },
            (Pending::Input, Some(Reply::Line(l))) => {
                proof {
                    lemma_vals_push(self.stack@, Value::Str(l));
                }
                self.stack.push(Value::Str(l));
                Ok(Effect::Running)
            },
            (p2, _) => {
                self.pending = p2;
                Err(RuntimeError::new("reply does not match the pending request"))
            },
        }
    }

    pub fn op_poopy(&mut self) -> (r: Result<Effect, RuntimeError>)
        requires
            old(self).wf(),
        ensures
            final(self).wf(),
            (final(self)@, res_v(r)) == spec_op_poopy(old(self)@),
    {
        match self.stack.pop() {
            Some(_) => {
                proof {
                    lemma_vals_drop(old(self).stack@);
                }
                Ok(Effect::Running)
            },
            None => Err(RuntimeError::new("stack underflow")),
        }
    }
}

} // verus!
