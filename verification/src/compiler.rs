use vstd::prelude::*;

use crate::parser::{BinaryOp, Expr, Function, Program, Statement};
use crate::value::ValueV;
use crate::vm::FuncMeta;
use crate::wire::{u16_le_bytes, u32_le_bytes, u64_le_bytes};

verus! {

broadcast use vstd::std_specs::vec::axiom_vec_index_decreases;

// ---------------------------------------------------------------------------
// The instruction set, as data
// ---------------------------------------------------------------------------

/// One machine instruction. The code generator works over instructions and
/// assembles them to bytes at the very end, so a jump target can be patched
/// as a field rather than as loose bytes; the assembled form is byte for
/// byte the encoding the machine dispatches on.
#[derive(Debug, Clone, Copy, PartialEq, Eq, Structural)]
pub enum Instr {
    Halt,
    LoadConst(u32),
    LoadGlobal(u8),
    StoreGlobal(u8),
    Add,
    Sub,
    Mul,
    Div,
    Print,
    Input,
    Jump(u32),
    JumpIfFalse(u32),
    Call(u32),
    Return,
    LoadLocal(u16),
    StoreLocal(u16),
    HaltAlt,
}

/// The encoded form of one instruction: the opcode byte followed by its
/// little-endian operand, if any.
pub open spec fn encode_instr(i: Instr) -> Seq<u8> {
    match i {
        Instr::Halt => seq![0x01u8],
        Instr::LoadConst(c) => seq![0x02u8] + u32_le_bytes(c),
        Instr::LoadGlobal(g) => seq![0x03u8, g],
        Instr::StoreGlobal(g) => seq![0x04u8, g],
        Instr::Add => seq![0x05u8],
        Instr::Sub => seq![0x06u8],
        Instr::Mul => seq![0x07u8],
        Instr::Div => seq![0x08u8],
        Instr::Print => seq![0x09u8],
        Instr::Input => seq![0x0au8],
        Instr::Jump(t) => seq![0x0bu8] + u32_le_bytes(t),
        Instr::JumpIfFalse(t) => seq![0x0cu8] + u32_le_bytes(t),
        Instr::Call(f) => seq![0x0du8] + u32_le_bytes(f),
        Instr::Return => seq![0x0eu8],
        Instr::LoadLocal(l) => seq![0x0fu8] + u16_le_bytes(l),
        Instr::StoreLocal(l) => seq![0x10u8] + u16_le_bytes(l),
        Instr::HaltAlt => seq![0x12u8],
    }
}

/// The encoding of a whole instruction sequence: the concatenation of the
/// instructions' encodings.
pub open spec fn encode_list(instrs: Seq<Instr>) -> Seq<u8>
    decreases instrs.len(),
{
    if instrs.len() == 0 {
        Seq::empty()
    } else {
        encode_instr(instrs[0]) + encode_list(instrs.drop_first())
    }
}

/// Every jump operand in the sequence lies strictly below `limit`.
pub open spec fn jumps_below(instrs: Seq<Instr>, limit: nat) -> bool {
    forall|i: int| 0 <= i < instrs.len() ==> match #[trigger] instrs[i] {
        Instr::Jump(t) => (t as nat) < limit,
        Instr::JumpIfFalse(t) => (t as nat) < limit,
        _ => true,
    }
}

proof fn lemma_encode_list_push(instrs: Seq<Instr>, i: Instr)
    ensures
        encode_list(instrs.push(i)) == encode_list(instrs) + encode_instr(i),
    decreases instrs.len(),
{
    let p = instrs.push(i);
    assert(p.len() == instrs.len() + 1);
    if instrs.len() == 0 {
        assert(p[0] == i);
        assert(p.drop_first() =~= Seq::<Instr>::empty());
        assert(encode_list(p) == encode_instr(i) + encode_list(Seq::<Instr>::empty()));
        assert(encode_instr(i) + Seq::<u8>::empty() =~= Seq::<u8>::empty() + encode_instr(i));
    } else {
        assert(p[0] == instrs[0]);
        assert(p.drop_first() =~= instrs.drop_first().push(i));
        lemma_encode_list_push(instrs.drop_first(), i);
        assert(encode_list(p) == encode_instr(instrs[0]) + (encode_list(instrs.drop_first())
            + encode_instr(i)));
        assert(encode_instr(instrs[0]) + (encode_list(instrs.drop_first()) + encode_instr(i))
            =~= (encode_instr(instrs[0]) + encode_list(instrs.drop_first())) + encode_instr(i));
    }
}

proof fn lemma_encode_list_append(a: Seq<Instr>, b: Seq<Instr>)
    ensures
        encode_list(a + b) == encode_list(a) + encode_list(b),
    decreases b.len(),
{
    if b.len() == 0 {
        assert(a + b =~= a);
        assert(encode_list(a + b) =~= encode_list(a) + encode_list(b));
    } else {
        assert((a + b) =~= (a.push(b[0]) + b.drop_first()));
        lemma_encode_list_append(a.push(b[0]), b.drop_first());
        lemma_encode_list_push(a, b[0]);
        assert(encode_list(a + b) =~= encode_list(a) + encode_list(b));
    }
}

// ---------------------------------------------------------------------------
// The constant pool
// ---------------------------------------------------------------------------

/// A pool entry: the bit pattern of a double, or a text. Entries compare by
/// that exact content, so two spellings of one double share an entry and
/// doubles with different bit patterns (distinct NaN payloads, the two
/// zeroes) do not.
#[derive(Debug, Clone)]
pub enum Constant {
    Num(u64),
    Str(String),
}

pub open spec fn const_v(c: Constant) -> ValueV {
    match c {
        Constant::Num(b) => ValueV::Num(b),
        Constant::Str(s) => ValueV::Str(s@),
    }
}

pub open spec fn consts_v(s: Seq<Constant>) -> Seq<ValueV> {
    s.map_values(|c: Constant| const_v(c))
}

pub open spec fn parts_v(s: Seq<Vec<Instr>>) -> Seq<Seq<Instr>> {
    s.map_values(|v: Vec<Instr>| v@)
}

/// `v` is one of the pool's entries.
pub open spec fn pool_has(pool: Seq<ValueV>, v: ValueV) -> bool {
    exists|j: int| 0 <= j < pool.len() && pool[j] == v
}

/// No two pool entries hold the same value.
pub open spec fn pool_distinct(pool: Seq<ValueV>) -> bool {
    forall|i: int, j: int| 0 <= i < j < pool.len() ==> pool[i] != pool[j]
}

// ---------------------------------------------------------------------------
// Numeric literal bindings
// ---------------------------------------------------------------------------

/// The driver binds each numeric literal spelling to the bit pattern of the
/// double it denotes; the compiler takes the bindings as data. The first
/// binding of a spelling wins.
pub open spec fn spec_num_lookup(nums: Seq<(String, u64)>, text: Seq<char>) -> Option<u64>
    decreases nums.len(),
{
    if nums.len() == 0 {
        None
    } else if nums[0].0@ == text {
        Some(nums[0].1)
    } else {
        spec_num_lookup(nums.drop_first(), text)
    }
}

#[verifier::loop_isolation(false)]
pub fn lookup_number(numbers: &Vec<(String, u64)>, text: &String) -> (r: Option<u64>)
    ensures
        r == spec_num_lookup(numbers@, text@),
{
    proof {
        assert(numbers@.subrange(0, numbers@.len() as int) =~= numbers@);
    }
    let mut i: usize = 0;
    while i < numbers.len()
        invariant
            i <= numbers@.len(),
            spec_num_lookup(numbers@, text@) == spec_num_lookup(
                numbers@.subrange(i as int, numbers@.len() as int),
                text@,
            ),
        decreases numbers@.len() - i,
    {
        let ghost rest = numbers@.subrange(i as int, numbers@.len() as int);
        proof {
            assert(rest.len() > 0);
            assert(rest[0] == numbers@[i as int]);
            assert(rest.drop_first() =~= numbers@.subrange(i as int + 1, numbers@.len() as int));
        }
        if crate::text::str_eq(numbers[i].0.as_str(), text.as_str()) {
            return Some(numbers[i].1);
        }
        i = i + 1;
    }
    proof {
        assert(numbers@.subrange(i as int, numbers@.len() as int).len() == 0);
    }
    None
}

// ---------------------------------------------------------------------------
// Name resolution
// ---------------------------------------------------------------------------

/// The fixed index of a global slot name, if the name is one of the seven.
pub open spec fn spec_braincell_index(name: Seq<char>) -> Option<u8> {
    if name == "aura"@ {
        Some(0u8)
    } else if name == "peak"@ {
        Some(1u8)
    } else if name == "goon"@ {
        Some(2u8)
    } else if name == "mog"@ {
        Some(3u8)
    } else if name == "npc"@ {
        Some(4u8)
    } else if name == "sigma"@ {
        Some(5u8)
    } else if name == "gyatt"@ {
        Some(6u8)
    } else {
        None
    }
}

/// The value of the first binding of `name` in an association list whose
/// names are distinct.
pub open spec fn spec_local_lookup(locals: Seq<(String, u16)>, name: Seq<char>) -> Option<u16>
    decreases locals.len(),
{
    if locals.len() == 0 {
        None
    } else if locals[0].0@ == name {
        Some(locals[0].1)
    } else {
        spec_local_lookup(locals.drop_first(), name)
    }
}

pub open spec fn names_of(locals: Seq<(String, u16)>) -> Seq<Seq<char>> {
    locals.map_values(|p: (String, u16)| p.0@)
}

pub open spec fn names_distinct(ns: Seq<Seq<char>>) -> bool {
    forall|i: int, j: int| 0 <= i < j < ns.len() ==> ns[i] != ns[j]
}

/// Adding one assigned name to the set of locals: already present, nothing
/// changes; new, it is appended.
pub open spec fn insert_name(ns: Seq<Seq<char>>, n: Seq<char>) -> Seq<Seq<char>> {
    if ns.contains(n) {
        ns
    } else {
        ns.push(n)
    }
}

/// The local names after compiling one statement, given the names before:
/// assignment targets are added in order of first assignment, and the
/// blocks of `if` and `while` are walked in source order.
pub open spec fn stmt_new_locals(ns: Seq<Seq<char>>, s: Statement) -> Seq<Seq<char>>
    decreases s, 0nat,
{
    match s {
        Statement::Assign(name, _) => insert_name(ns, name@),
        Statement::Copy { dest, .. } => insert_name(ns, dest@),
        Statement::If { then_block, else_block, .. } => {
            let ns1 = stmts_new_locals(ns, then_block, 0);
            match else_block {
                Some(eb) => stmts_new_locals(ns1, eb, 0),
                None => ns1,
            }
        },
        Statement::While { body, .. } => stmts_new_locals(ns, body, 0),
        _ => ns,
    }
}

pub open spec fn stmts_new_locals(ns: Seq<Seq<char>>, stmts: Vec<Statement>, i: int) -> Seq<
    Seq<char>,
>
    decreases stmts, stmts@.len() - i, 1nat,
{
    if i < 0 || i >= stmts@.len() {
        ns
    } else {
        stmts_new_locals(stmt_new_locals(ns, stmts@[i]), stmts, i + 1)
    }
}

// ---------------------------------------------------------------------------
// Which constants a piece of the program mentions
// ---------------------------------------------------------------------------

/// `v` is the pool value of some literal of the expression, under the
/// given numeric bindings.
pub open spec fn expr_has_const(e: Expr, nums: Seq<(String, u64)>, v: ValueV) -> bool
    decreases e,
{
    match e {
        Expr::Num(t) => (match spec_num_lookup(nums, t@) {
            Some(bits) => v == ValueV::Num(bits),
            None => false,
        }),
        Expr::Str(s) => v == ValueV::Str(s@),
        Expr::Variable(_) => false,
        Expr::Binary { left, right, .. } => expr_has_const(*left, nums, v) || expr_has_const(
            *right,
            nums,
            v,
        ),
        Expr::FunctionCall { name, arg } => (if name@ == "TOUCHY"@ {
            false
        } else {
            match arg {
                Some(a) => expr_has_const(*a, nums, v),
                None => false,
            }
        }),
        Expr::UserFunctionCall { args, .. } => exists|i: int|
            0 <= i < args@.len() && expr_has_const(#[trigger] args@[i], nums, v),
    }
}

/// `v` is the pool value of some literal of the statement.
pub open spec fn stmt_has_const(s: Statement, nums: Seq<(String, u64)>, v: ValueV) -> bool
    decreases s,
{
    match s {
        Statement::Assign(_, e) => expr_has_const(e, nums, v),
        Statement::Copy { source, .. } => expr_has_const(source, nums, v),
        Statement::Print(e) => expr_has_const(e, nums, v),
        Statement::Return(e) => expr_has_const(e, nums, v),
        Statement::Halt => false,
        Statement::If { condition, then_block, else_block } => expr_has_const(condition, nums, v)
            || block_has_const(then_block, nums, v) || (match else_block {
            Some(eb) => block_has_const(eb, nums, v),
            None => false,
        }),
        Statement::While { condition, body } => expr_has_const(condition, nums, v)
            || block_has_const(body, nums, v),
    }
}

/// `v` is a pool value of some statement of the block.
pub open spec fn block_has_const(b: Vec<Statement>, nums: Seq<(String, u64)>, v: ValueV) -> bool
    decreases b,
{
    exists|k: int| 0 <= k < b@.len() && stmt_has_const(#[trigger] b@[k], nums, v)
}

proof fn lemma_block_has(b: Vec<Statement>, nums: Seq<(String, u64)>, v: ValueV, k: int)
    requires
        0 <= k < b@.len(),
        stmt_has_const(b@[k], nums, v),
    ensures
        block_has_const(b, nums, v),
{
    assert(exists|i: int| 0 <= i < b@.len() && stmt_has_const(#[trigger] b@[i], nums, v));
}

/// The body's last statement is a return.
pub open spec fn ends_with_return(body: Seq<Statement>) -> bool {
    body.len() > 0 && (body[body.len() - 1] matches Statement::Return(_))
}

/// `v` is a pool value of the function: its name, a literal of its body,
/// or the empty text of the default return appended to a body that does
/// not end in a return.
pub open spec fn func_has_const(f: &Function, nums: Seq<(String, u64)>, v: ValueV) -> bool {
    v == ValueV::Str(f.name@) || block_has_const(f.body, nums, v) || (!ends_with_return(f.body@)
        && v == ValueV::Str(""@))
}

/// `v` is a pool value of the program.
pub open spec fn program_has_const(p: &Program, nums: Seq<(String, u64)>, v: ValueV) -> bool {
    (exists|i: int| 0 <= i < p.functions@.len() && #[trigger] func_has_const(
        &p.functions@[i],
        nums,
        v,
    )) || block_has_const(p.main_statements, nums, v)
}

proof fn lemma_pool_has_prefix(p1: Seq<ValueV>, p2: Seq<ValueV>, v: ValueV)
    requires
        p2.len() >= p1.len(),
        p2.take(p1.len() as int) == p1,
        pool_has(p1, v),
    ensures
        pool_has(p2, v),
{
    let j = choose|j: int| 0 <= j < p1.len() && p1[j] == v;
    assert(p2[j] == p2.take(p1.len() as int)[j]);
}

// ---------------------------------------------------------------------------
// The compiler state
// ---------------------------------------------------------------------------

/// The code generator: the pool and function tables grown so far, the
/// instruction buffer of the piece being compiled, the local slots of the
/// function being compiled, and the finished bodies of earlier functions.
pub struct Compiler {
    constants: Vec<Constant>,
    functions: Vec<FuncMeta>,
    function_names: Vec<String>,
    code: Vec<Instr>,
    locals: Vec<(String, u16)>,
    in_function: bool,
    function_code_parts: Vec<Vec<Instr>>,
}

impl Compiler {
    spec fn pool(self) -> Seq<ValueV> {
        consts_v(self.constants@)
    }

    /// The threaded part of the state, as the lowering functions see it.
    spec fn cstate(self) -> CState {
        CState { pool: self.pool(), locals: self.locals@, code: self.code@ }
    }

    spec fn wf(self) -> bool {
        &&& pool_distinct(self.pool())
        &&& self.constants@.len() <= 0xFFFF_FFFF
        &&& names_distinct(names_of(self.locals@))
        &&& self.locals@.len() <= 0xFFFF
        &&& self.function_names@.len() == self.functions@.len()
        &&& self.functions@.len() <= 0xFFFF_FFFD
    }

    fn new() -> (c: Compiler)
        ensures
            c.wf(),
            c.pool() == Seq::<ValueV>::empty(),
            c.functions@ == Seq::<FuncMeta>::empty(),
            c.function_names@ == Seq::<String>::empty(),
            c.code@ == Seq::<Instr>::empty(),
            c.locals@ == Seq::<(String, u16)>::empty(),
            !c.in_function,
            c.function_code_parts@ == Seq::<Vec<Instr>>::empty(),
    {
        let c = Compiler {
            constants: Vec::new(),
            functions: Vec::new(),
            function_names: Vec::new(),
            code: Vec::new(),
            locals: Vec::new(),
            in_function: false,
            function_code_parts: Vec::new(),
        };
        proof {
            assert(consts_v(c.constants@) =~= Seq::<ValueV>::empty());
        }
        c
    }

    /// Interns a constant: an entry with the same value is reused, a new
    /// value is appended. Existing indices never move.
    #[verifier::loop_isolation(false)]
    fn add_const(&mut self, constant: Constant) -> (r: Result<u32, String>)
        requires
            old(self).wf(),
        ensures
            final(self).wf(),
            final(self).code@ == old(self).code@,
            final(self).functions@ == old(self).functions@,
            final(self).function_names@ == old(self).function_names@,
            final(self).locals@ == old(self).locals@,
            final(self).in_function == old(self).in_function,
            final(self).function_code_parts@ == old(self).function_code_parts@,
            match r {
                Ok(idx) => {
                    &&& (idx as int) < final(self).pool().len()
                    &&& final(self).pool()[idx as int] == const_v(constant)
                    &&& final(self).pool().take(old(self).pool().len() as int) == old(self).pool()
                    &&& (final(self).pool() == old(self).pool() || final(self).pool() == old(
                        self,
                    ).pool().push(const_v(constant)))
                },
                Err(m) => final(self).pool() == old(self).pool() && m@ == "too many constants"@,
            },
            match r {
                Ok(idx) => spec_intern(old(self).pool(), const_v(constant)) == Ok::<
                    (Seq<ValueV>, u32),
                    Seq<char>,
                >((final(self).pool(), idx)),
                Err(m) => spec_intern(old(self).pool(), const_v(constant)) == Err::<
                    (Seq<ValueV>, u32),
                    Seq<char>,
                >(m@),
            },
    {
        let n = self.constants.len();
        let mut i: usize = 0;
        while i < n
            invariant
                i <= n,
                n == self.constants@.len(),
                forall|j: int| 0 <= j < i ==> consts_v(self.constants@)[j] != const_v(constant),
                pool_find(self.pool(), const_v(constant), 0) == pool_find(
                    self.pool(),
                    const_v(constant),
                    i as int,
                ),
            decreases n - i,
        {
            let same = match (&self.constants[i], &constant) {
                (Constant::Num(a), Constant::Num(b)) => *a == *b,
                (Constant::Str(x), Constant::Str(y)) => crate::text::str_eq(
                    x.as_str(),
                    y.as_str(),
                ),
                _ => false,
            };
            if same {
                proof {
                    assert(consts_v(self.constants@)[i as int] == const_v(constant));
                    assert(self.pool().take(self.pool().len() as int) =~= self.pool());
                    assert(pool_find(self.pool(), const_v(constant), i as int) == Some(i as int));
                }
                return Ok(i as u32);
            }
            proof {
                assert(consts_v(self.constants@)[i as int] != const_v(constant));
            }
            i = i + 1;
        }
        proof {
            assert(pool_find(self.pool(), const_v(constant), n as int) is None);
        }
        if self.constants.len() >= 0xFFFF_FFFF {
            return Err("too many constants".to_owned());
        }
        let idx = self.constants.len() as u32;
        let ghost p0 = self.pool();
        self.constants.push(constant);
        proof {
            assert(consts_v(self.constants@) =~= p0.push(const_v(constant)));
            assert(consts_v(self.constants@).take(p0.len() as int) =~= p0);
        }
        Ok(idx)
    }

    /// The index of a global slot name, or the diagnostic naming it.
    fn get_braincell_index(&self, name: &str) -> (r: Result<u8, String>)
        ensures
            match r {
                Ok(g) => spec_braincell_index(name@) == Some(g),
                Err(m) => spec_braincell_index(name@) is None && m@ == "unknown braincell: "@
                    + name@,
            },
    {
        if crate::text::str_eq(name, "aura") {
            Ok(0)
        } else if crate::text::str_eq(name, "peak") {
            Ok(1)
        } else if crate::text::str_eq(name, "goon") {
            Ok(2)
        } else if crate::text::str_eq(name, "mog") {
            Ok(3)
        } else if crate::text::str_eq(name, "npc") {
            Ok(4)
        } else if crate::text::str_eq(name, "sigma") {
            Ok(5)
        } else if crate::text::str_eq(name, "gyatt") {
            Ok(6)
        } else {
            Err("unknown braincell: ".to_owned().concat(name))
        }
    }

    /// The slot bound to `name` among the current locals.
    #[verifier::loop_isolation(false)]
    fn local_lookup(&self, name: &String) -> (r: Option<u16>)
        ensures
            r == spec_local_lookup(self.locals@, name@),
    {
        proof {
            assert(self.locals@.subrange(0, self.locals@.len() as int) =~= self.locals@);
        }
        let mut i: usize = 0;
        while i < self.locals.len()
            invariant
                i <= self.locals@.len(),
                spec_local_lookup(self.locals@, name@) == spec_local_lookup(
                    self.locals@.subrange(i as int, self.locals@.len() as int),
                    name@,
                ),
            decreases self.locals@.len() - i,
        {
            let ghost rest = self.locals@.subrange(i as int, self.locals@.len() as int);
            proof {
                assert(rest[0] == self.locals@[i as int]);
                assert(rest.drop_first() =~= self.locals@.subrange(
                    i as int + 1,
                    self.locals@.len() as int,
                ));
            }
            if crate::text::str_eq(self.locals[i].0.as_str(), name.as_str()) {
                return Some(self.locals[i].1);
            }
            i = i + 1;
        }
        None
    }
}

// ---------------------------------------------------------------------------
// Contract vocabulary shared by the emitting functions
// ---------------------------------------------------------------------------

/// The earlier sequence is an unchanged prefix of the later one.
pub open spec fn seq_extends<A>(pre: Seq<A>, post: Seq<A>) -> bool {
    post.len() >= pre.len() && forall|i: int| 0 <= i < pre.len() ==> post[i] == pre[i]
}

/// No instruction in the new region is a jump.
pub open spec fn no_new_jumps(pre: Seq<Instr>, post: Seq<Instr>) -> bool {
    forall|j: int| pre.len() <= j < post.len() ==> match #[trigger] post[j] {
        Instr::Jump(_) => false,
        Instr::JumpIfFalse(_) => false,
        _ => true,
    }
}

proof fn lemma_lookup_none_iff_absent(locals: Seq<(String, u16)>, name: Seq<char>)
    ensures
        (spec_local_lookup(locals, name) is None) <==> !names_of(locals).contains(name),
    decreases locals.len(),
{
    let ns = names_of(locals);
    if locals.len() == 0 {
        assert(!ns.contains(name)) by {
            if ns.contains(name) {
                let i = choose|i: int| 0 <= i < ns.len() && ns[i] == name;
            }
        }
    } else {
        lemma_lookup_none_iff_absent(locals.drop_first(), name);
        assert(names_of(locals.drop_first()) =~= ns.drop_first());
        if locals[0].0@ == name {
            assert(ns[0] == name);
            assert(ns.contains(name));
        } else {
            assert(ns.contains(name) <==> ns.drop_first().contains(name)) by {
                if ns.contains(name) {
                    let i = choose|i: int| 0 <= i < ns.len() && ns[i] == name;
                    assert(i != 0);
                    assert(ns.drop_first()[i - 1] == name);
                }
                if ns.drop_first().contains(name) {
                    let i = choose|i: int| 0 <= i < ns.drop_first().len() && ns.drop_first()[i]
                        == name;
                    assert(ns[i + 1] == name);
                }
            }
        }
    }
}

impl Compiler {
    /// Emits the load of a variable: a local slot when the name is bound in
    /// the current function, else a global slot named by a braincell.
    fn emit_load(&mut self, var_name: &String) -> (r: Result<(), String>)
        requires
            old(self).wf(),
        ensures
            final(self).wf(),
            final(self).constants@ == old(self).constants@,
            final(self).functions@ == old(self).functions@,
            final(self).function_names@ == old(self).function_names@,
            final(self).locals@ == old(self).locals@,
            final(self).in_function == old(self).in_function,
            final(self).function_code_parts@ == old(self).function_code_parts@,
            match r {
                Ok(()) => match spec_local_lookup(old(self).locals@, var_name@) {
                    Some(ix) => final(self).code@ == old(self).code@.push(Instr::LoadLocal(ix)),
                    None => match spec_braincell_index(var_name@) {
                        Some(g) => final(self).code@ == old(self).code@.push(
                            Instr::LoadGlobal(g),
                        ),
                        None => false,
                    },
                },
                Err(m) => final(self).code@ == old(self).code@ && spec_local_lookup(
                    old(self).locals@,
                    var_name@,
                ) is None && spec_braincell_index(var_name@) is None,
            },
            match r {
                Ok(()) => spec_emit_load(old(self).cstate(), *var_name) == Ok::<CState, Seq<char>>(
                    final(self).cstate(),
                ),
                Err(m) => spec_emit_load(old(self).cstate(), *var_name) == Err::<
                    CState,
                    Seq<char>,
                >(m@),
            },
    {
        match self.local_lookup(var_name) {
            Some(local_idx) => {
                self.code.push(Instr::LoadLocal(local_idx));
                Ok(())
            },
            None => {
                match self.get_braincell_index(var_name.as_str()) {
                    Ok(g) => {
                        self.code.push(Instr::LoadGlobal(g));
                        Ok(())
                    },
                    Err(m) => Err(m),
                }
            },
        }
    }

    /// Emits the store of a variable. In a function every store goes to a
    /// local slot, allocating the next slot on the first assignment of a
    /// new name; in the main block the name must be a braincell.
    fn emit_store(&mut self, var_name: &String) -> (r: Result<(), String>)
        requires
            old(self).wf(),
        ensures
            final(self).wf(),
            final(self).constants@ == old(self).constants@,
            final(self).functions@ == old(self).functions@,
            final(self).function_names@ == old(self).function_names@,
            final(self).in_function == old(self).in_function,
            final(self).function_code_parts@ == old(self).function_code_parts@,
            seq_extends(old(self).code@, final(self).code@),
            no_new_jumps(old(self).code@, final(self).code@),
            !old(self).in_function ==> final(self).locals@ == old(self).locals@,
            match r {
                Ok(()) => final(self).code@.len() == old(self).code@.len() + 1 && (old(
                    self,
                ).in_function ==> names_of(final(self).locals@) == insert_name(
                    names_of(old(self).locals@),
                    var_name@,
                )),
                Err(m) => final(self).code@ == old(self).code@ && final(self).locals@ == old(
                    self,
                ).locals@,
            },
            match r {
                Ok(()) => spec_emit_store(
                    old(self).cstate(),
                    *var_name,
                    old(self).in_function,
                ) == Ok::<CState, Seq<char>>(final(self).cstate()),
                Err(m) => spec_emit_store(
                    old(self).cstate(),
                    *var_name,
                    old(self).in_function,
                ) == Err::<CState, Seq<char>>(m@),
            },
    {
        if self.in_function {
            let local_idx = match self.local_lookup(var_name) {
                Some(ix) => {
                    proof {
                        lemma_lookup_none_iff_absent(self.locals@, var_name@);
                    }
                    ix
                },
                None => {
                    proof {
                        lemma_lookup_none_iff_absent(self.locals@, var_name@);
                    }
                    if self.locals.len() >= 0xFFFF {
                        return Err("too many locals".to_owned());
                    }
                    let ix = self.locals.len() as u16;
                    let ghost l0 = self.locals@;
                    self.locals.push((var_name.clone(), ix));
                    proof {
                        assert(names_of(self.locals@) =~= names_of(l0).push(var_name@));
                        assert forall|i: int, j: int|
                            0 <= i < j < names_of(self.locals@).len() implies names_of(
                            self.locals@,
                        )[i] != names_of(self.locals@)[j] by {
                            if j < l0.len() {
                                assert(names_of(l0)[i] != names_of(l0)[j]);
                            } else {
                                assert(names_of(self.locals@)[j] == var_name@);
                                assert(names_of(l0)[i] == names_of(self.locals@)[i]);
                                assert(!names_of(l0).contains(var_name@));
                            }
                        }
                    }
                    ix
                },
            };
            let ghost c0 = self.code@;
            self.code.push(Instr::StoreLocal(local_idx));
            proof {
                assert(self.code@.take(c0.len() as int) =~= c0);
            }
            Ok(())
        } else {
            match self.get_braincell_index(var_name.as_str()) {
                Ok(g) => {
                    let ghost c0 = self.code@;
                    self.code.push(Instr::StoreGlobal(g));
                    proof {
                        assert(self.code@.take(c0.len() as int) =~= c0);
                    }
                    Ok(())
                },
                Err(m) => Err(m),
            }
        }
    }
}

// ---------------------------------------------------------------------------
// Byte offsets
// ---------------------------------------------------------------------------

proof fn lemma_encode_split(c1: Seq<Instr>, c2: Seq<Instr>)
    requires
        seq_extends(c1, c2),
    ensures
        encode_list(c2) == encode_list(c1) + encode_list(c2.skip(c1.len() as int)),
        encode_list(c2).len() >= encode_list(c1).len(),
{
    assert(c2 =~= c1 + c2.skip(c1.len() as int));
    lemma_encode_list_append(c1, c2.skip(c1.len() as int));
}

proof fn lemma_encode_len_ge_count(c: Seq<Instr>)
    ensures
        encode_list(c).len() >= c.len(),
    decreases c.len(),
{
    if c.len() > 0 {
        lemma_encode_len_ge_count(c.drop_first());
    }
}

/// The byte length of the assembled form of the buffer, or nothing when it
/// would not fit the artifact's 32-bit offsets.
#[verifier::loop_isolation(false)]
fn byte_len(code: &Vec<Instr>) -> (r: Option<u32>)
    ensures
        match r {
            Some(x) => x as nat == encode_list(code@).len(),
            None => encode_list(code@).len() > 0xFFFF_FFFF,
        },
{
    let mut sum: u64 = 0;
    let mut i: usize = 0;
    proof {
        assert(code@.take(0) =~= Seq::<Instr>::empty());
    }
    while i < code.len()
        invariant
            i <= code@.len(),
            sum <= 0xFFFF_FFFF,
            sum as nat == encode_list(code@.take(i as int)).len(),
        decreases code@.len() - i,
    {
        let size: u64 = match code[i] {
            Instr::LoadConst(_) => 5,
            Instr::Jump(_) => 5,
            Instr::JumpIfFalse(_) => 5,
            Instr::Call(_) => 5,
            Instr::LoadGlobal(_) => 2,
            Instr::StoreGlobal(_) => 2,
            Instr::LoadLocal(_) => 3,
            Instr::StoreLocal(_) => 3,
            _ => 1,
        };
        proof {
            assert(code@.take(i as int + 1) =~= code@.take(i as int).push(code@[i as int]));
            lemma_encode_list_push(code@.take(i as int), code@[i as int]);
        }
        sum = sum + size;
        i = i + 1;
        if sum > 0xFFFF_FFFF {
            proof {
                assert(seq_extends(code@.take(i as int), code@));
                lemma_encode_split(code@.take(i as int), code@);
            }
            return None;
        }
    }
    proof {
        assert(code@.take(code@.len() as int) =~= code@);
    }
    Some(sum as u32)
}

impl Compiler {
    /// The position of `name` in the declared function list.
    #[verifier::loop_isolation(false)]
    fn lookup_function(&self, name: &String) -> (r: Option<u32>)
        requires
            self.wf(),
        ensures
            match r {
                Some(ix) => 2 <= ix && (ix - 2) < self.function_names@.len()
                    && self.function_names@[ix as int - 2]@ == name@ && fname_find(
                    self.function_names@,
                    name@,
                    0,
                ) == Some(ix as int - 2),
                None => fname_find(self.function_names@, name@, 0) is None && (forall|k: int|
                    0 <= k < self.function_names@.len()
                        ==> #[trigger] self.function_names@[k]@ != name@),
            },
    {
        let mut i: usize = 0;
        while i < self.function_names.len()
            invariant
                i <= self.function_names@.len(),
                forall|k: int| 0 <= k < i ==> #[trigger] self.function_names@[k]@ != name@,
                fname_find(self.function_names@, name@, 0) == fname_find(
                    self.function_names@,
                    name@,
                    i as int,
                ),
            decreases self.function_names@.len() - i,
        {
            if crate::text::str_eq(self.function_names[i].as_str(), name.as_str()) {
                proof {
                    assert(fname_find(self.function_names@, name@, i as int) == Some(i as int));
                }
                return Some(2 + i as u32);
            }
            i = i + 1;
        }
        proof {
            assert(fname_find(self.function_names@, name@, i as int) is None);
        }
        None
    }

    /// Lowers one expression to instructions that leave exactly its value
    /// on the stack. Every literal of the expression is interned, and every
    /// pool entry this adds is such a literal; no jumps are emitted.
    #[verifier::loop_isolation(false)]
    fn compile_expr(&mut self, expr: &Expr, numbers: &Vec<(String, u64)>) -> (r: Result<
        (),
        String,
    >)
        requires
            old(self).wf(),
        ensures
            final(self).wf(),
            final(self).functions@ == old(self).functions@,
            final(self).function_names@ == old(self).function_names@,
            final(self).locals@ == old(self).locals@,
            final(self).in_function == old(self).in_function,
            final(self).function_code_parts@ == old(self).function_code_parts@,
            seq_extends(old(self).pool(), final(self).pool()),
            seq_extends(old(self).code@, final(self).code@),
            no_new_jumps(old(self).code@, final(self).code@),
            forall|j: int| old(self).pool().len() <= j < final(self).pool().len()
                ==> expr_has_const(*expr, numbers@, #[trigger] final(self).pool()[j]),
            r is Ok ==> final(self).code@.len() > old(self).code@.len(),
            r is Ok ==> forall|v: ValueV| #[trigger] expr_has_const(*expr, numbers@, v)
                ==> pool_has(final(self).pool(), v),
            match r {
                Ok(()) => spec_compile_expr(
                    old(self).cstate(),
                    *expr,
                    numbers@,
                    old(self).function_names@,
                ) == Ok::<CState, Seq<char>>(final(self).cstate()),
                Err(m) => spec_compile_expr(
                    old(self).cstate(),
                    *expr,
                    numbers@,
                    old(self).function_names@,
                ) == Err::<CState, Seq<char>>(m@),
            },
        decreases expr,
    {
        match expr {
            Expr::Num(t) => {
                let bits = match lookup_number(numbers, t) {
                    Some(b) => b,
                    None => {
                        return Err("unresolved numeric literal".to_owned());
                    },
                };
                let idx = match self.add_const(Constant::Num(bits)) {
                    Ok(i) => i,
                    Err(m) => {
                        return Err(m);
                    },
                };
                self.code.push(Instr::LoadConst(idx));
                proof {
                    assert(pool_has(self.pool(), ValueV::Num(bits)));
                }
                Ok(())
            },
            Expr::Str(s) => {
                let idx = match self.add_const(Constant::Str(s.clone())) {
                    Ok(i) => i,
                    Err(m) => {
                        return Err(m);
                    },
                };
                self.code.push(Instr::LoadConst(idx));
                proof {
                    assert(pool_has(self.pool(), ValueV::Str(s@)));
                }
                Ok(())
            },
            Expr::Variable(name) => self.emit_load(name),
            Expr::Binary { op, left, right } => {
                match self.compile_expr(&*left, numbers) {
                    Ok(()) => (),
                    Err(m) => {
                        return Err(m);
                    },
                }
                let ghost mid = *self;
                match self.compile_expr(&*right, numbers) {
                    Ok(()) => (),
                    Err(m) => {
                        proof {
                            lemma_pool_region_lift(
                                old(self).pool(),
                                mid.pool(),
                                self.pool(),
                            );
                        }
                        return Err(m);
                    },
                }
                let instr = match op {
                    BinaryOp::Add => Instr::Add,
                    BinaryOp::Subtract => Instr::Sub,
                    BinaryOp::Multiply => Instr::Mul,
                    BinaryOp::Divide => Instr::Div,
                };
                self.code.push(instr);
                proof {
                    lemma_pool_region_lift(old(self).pool(), mid.pool(), self.pool());
                    assert forall|v: ValueV| #[trigger] expr_has_const(*expr, numbers@, v) implies
                        pool_has(self.pool(), v) by {
                        assert(expr_has_const(**left, numbers@, v) || expr_has_const(
                            **right,
                            numbers@,
                            v,
                        ));
                        if expr_has_const(**left, numbers@, v) {
                            lemma_pool_has_extends(mid.pool(), self.pool(), v);
                        }
                    }
                }
                Ok(())
            },
            Expr::FunctionCall { name, arg } => {
                if crate::text::str_eq(name.as_str(), "TOUCHY") {
                    self.code.push(Instr::Input);
                    Ok(())
                } else if crate::text::str_eq(name.as_str(), "TRANSFORM") {
                    proof {
                        reveal_strlit("TOUCHY");
                        reveal_strlit("TRANSFORM");
                        assert("TOUCHY"@.len() == 6 && "TRANSFORM"@.len() == 9);
                        assert(name@ != "TOUCHY"@);
                    }
                    match arg {
                        Some(a) => {
                            match self.compile_expr(&*a, numbers) {
                                Ok(()) => (),
                                Err(m) => {
                                    return Err(m);
                                },
                            }
                            self.code.push(Instr::Call(0));
                            proof {
                                assert forall|v: ValueV| #[trigger] expr_has_const(
                                    *expr,
                                    numbers@,
                                    v,
                                ) implies pool_has(self.pool(), v) by {
                                    assert(expr_has_const(**a, numbers@, v));
                                }
                            }
                            Ok(())
                        },
                        None => Err("TRANSFORM requires argument".to_owned()),
                    }
                } else if crate::text::str_eq(name.as_str(), "RIZZED") {
                    proof {
                        reveal_strlit("TOUCHY");
                        reveal_strlit("TRANSFORM");
                        reveal_strlit("RIZZED");
                        assert("TOUCHY"@.len() == 6 && "TRANSFORM"@.len() == 9
                            && "RIZZED"@.len() == 6);
                        assert("RIZZED"@[0] == 'R' && "TOUCHY"@[0] == 'T');
                        assert(name@ != "TOUCHY"@ && name@ != "TRANSFORM"@);
                    }
                    match arg {
                        Some(a) => {
                            match self.compile_expr(&*a, numbers) {
                                Ok(()) => (),
                                Err(m) => {
                                    return Err(m);
                                },
                            }
                            self.code.push(Instr::Call(1));
                            proof {
                                assert forall|v: ValueV| #[trigger] expr_has_const(
                                    *expr,
                                    numbers@,
                                    v,
                                ) implies pool_has(self.pool(), v) by {
                                    assert(expr_has_const(**a, numbers@, v));
                                }
                            }
                            Ok(())
                        },
                        None => Err("RIZZED requires argument".to_owned()),
                    }
                } else {
                    Err("Unknown function: ".to_owned().concat(name.as_str()))
                }
            },
            Expr::UserFunctionCall { name, args } => {
                let ghost pre = *self;
                let mut i: usize = 0;
                while i < args.len()
                    invariant
                        i <= args@.len(),
                        self.wf(),
                        self.functions@ == pre.functions@,
                        self.function_names@ == pre.function_names@,
                        self.locals@ == pre.locals@,
                        self.in_function == pre.in_function,
                        self.function_code_parts@ == pre.function_code_parts@,
                        seq_extends(pre.pool(), self.pool()),
                        seq_extends(pre.code@, self.code@),
                        no_new_jumps(pre.code@, self.code@),
                        forall|j: int| pre.pool().len() <= j < self.pool().len()
                            ==> expr_has_const(*expr, numbers@, #[trigger] self.pool()[j]),
                        forall|k: int, v: ValueV| 0 <= k < i && #[trigger] expr_has_const(
                            args@[k],
                            numbers@,
                            v,
                        ) ==> pool_has(self.pool(), v),
                        spec_compile_args(pre.cstate(), *args, 0, numbers@, pre.function_names@)
                            == spec_compile_args(
                            self.cstate(),
                            *args,
                            i as int,
                            numbers@,
                            pre.function_names@,
                        ),
                    decreases args@.len() - i,
                {
                    let ghost midp = self.pool();
                    let step = self.compile_expr(&args[i], numbers);
                    proof {
                        assert forall|j: int| pre.pool().len() <= j < self.pool().len() implies
                            expr_has_const(*expr, numbers@, #[trigger] self.pool()[j]) by {
                            if j >= midp.len() {
                                assert(expr_has_const(args@[i as int], numbers@, self.pool()[j]));
                                lemma_user_call_has(*expr, numbers@, self.pool()[j], i as int);
                            }
                        }
                    }
                    match step {
                        Ok(()) => (),
                        Err(m) => {
                            return Err(m);
                        },
                    }
                    proof {
                        assert forall|k: int, v: ValueV| 0 <= k < i + 1 && #[trigger]
                            expr_has_const(args@[k], numbers@, v) implies pool_has(
                            self.pool(),
                            v,
                        ) by {
                            if k < i {
                                lemma_pool_has_extends(midp, self.pool(), v);
                            }
                        }
                    }
                    i = i + 1;
                }
                let func_idx = match self.lookup_function(name) {
                    Some(ix) => ix,
                    None => {
                        return Err("undefined function: ".to_owned().concat(name.as_str()));
                    },
                };
                self.code.push(Instr::Call(func_idx));
                proof {
                    assert forall|v: ValueV| #[trigger] expr_has_const(*expr, numbers@, v) implies
                        pool_has(self.pool(), v) by {
                        lemma_user_call_has_inv(*expr, numbers@, v);
                        let k = choose|k: int| 0 <= k < args@.len() && expr_has_const(
                            #[trigger] args@[k],
                            numbers@,
                            v,
                        );
                        assert(expr_has_const(args@[k], numbers@, v));
                    }
                }
                Ok(())
            },
        }
    }
}

/// A constant of one argument of a call is a constant of the call.
proof fn lemma_user_call_has(e: Expr, nums: Seq<(String, u64)>, v: ValueV, k: int)
    requires
        e is UserFunctionCall,
        0 <= k < e->UserFunctionCall_args@.len(),
        expr_has_const(e->UserFunctionCall_args@[k], nums, v),
    ensures
        expr_has_const(e, nums, v),
{
    let args = e->UserFunctionCall_args;
    assert(exists|i: int| 0 <= i < args@.len() && #[trigger] expr_has_const(args@[i], nums, v));
}

/// A constant of a call is a constant of one of its arguments.
proof fn lemma_user_call_has_inv(e: Expr, nums: Seq<(String, u64)>, v: ValueV)
    requires
        e is UserFunctionCall,
        expr_has_const(e, nums, v),
    ensures
        exists|k: int| 0 <= k < e->UserFunctionCall_args@.len() && expr_has_const(
            #[trigger] e->UserFunctionCall_args@[k],
            nums,
            v,
        ),
{
}

/// Bounded jumps stay bounded when the code grows by jump-free
/// instructions and the bound does not shrink.
proof fn lemma_jumps_extend(c0: Seq<Instr>, c1: Seq<Instr>, l: nat, m: nat)
    requires
        seq_extends(c0, c1),
        no_new_jumps(c0, c1),
        jumps_below(c0, l),
        l <= m,
    ensures
        jumps_below(c1, m),
{
    assert forall|i: int| 0 <= i < c1.len() implies match #[trigger] c1[i] {
        Instr::Jump(t) => (t as nat) < m,
        Instr::JumpIfFalse(t) => (t as nat) < m,
        _ => true,
    } by {
        if i < c0.len() {
            assert(c1[i] == c0[i]);
        }
    }
}

/// Replacing one instruction with one of the same encoded size keeps the
/// total encoded length.
proof fn lemma_encode_update_len(c: Seq<Instr>, k: int, ins: Instr)
    requires
        0 <= k < c.len(),
        encode_instr(ins).len() == encode_instr(c[k]).len(),
    ensures
        encode_list(c.update(k, ins)).len() == encode_list(c).len(),
    decreases c.len(),
{
    let u = c.update(k, ins);
    if k == 0 {
        assert(u.drop_first() =~= c.drop_first());
    } else {
        assert(u[0] == c[0]);
        assert(u.drop_first() =~= c.drop_first().update(k - 1, ins));
        lemma_encode_update_len(c.drop_first(), k - 1, ins);
    }
}

/// Everything in the smaller pool is in the larger.
proof fn lemma_pool_has_extends(p1: Seq<ValueV>, p2: Seq<ValueV>, v: ValueV)
    requires
        seq_extends(p1, p2),
        pool_has(p1, v),
    ensures
        pool_has(p2, v),
{
    let j = choose|j: int| 0 <= j < p1.len() && p1[j] == v;
    assert(p2[j] == v);
}

/// A new region seen across two growth steps splits into the two regions.
proof fn lemma_pool_region_lift(p0: Seq<ValueV>, p1: Seq<ValueV>, p2: Seq<ValueV>)
    requires
        seq_extends(p0, p1),
        seq_extends(p1, p2),
    ensures
        seq_extends(p0, p2),
        forall|j: int| p0.len() <= j < p1.len() ==> p2[j] == p1[j],
{
}


/// The step bound carries over any growth by jump-free code.
proof fn lemma_stmt_jumps_simple(c0: Seq<Instr>, c1: Seq<Instr>)
    requires
        seq_extends(c0, c1),
        no_new_jumps(c0, c1),
    ensures
        jumps_below(c0, encode_list(c0).len() + 1) ==> jumps_below(
            c1,
            encode_list(c1).len() + 1,
        ),
{
    if jumps_below(c0, encode_list(c0).len() + 1) {
        lemma_encode_split(c0, c1);
        lemma_jumps_extend(c0, c1, encode_list(c0).len() + 1, encode_list(c1).len() + 1);
    }
}

/// Pushing one instruction whose jump target, if any, is at most the
/// current byte length keeps all jumps bounded by the new byte length.
proof fn lemma_push_jump(c: Seq<Instr>, ins: Instr)
    requires
        jumps_below(c, encode_list(c).len() + 1),
        match ins {
            Instr::Jump(t) => (t as nat) <= encode_list(c).len(),
            Instr::JumpIfFalse(t) => (t as nat) <= encode_list(c).len(),
            _ => true,
        },
    ensures
        jumps_below(c.push(ins), encode_list(c.push(ins)).len() + 1),
{
    lemma_encode_list_push(c, ins);
    assert(encode_instr(ins).len() >= 1);
    assert forall|i: int| 0 <= i < c.push(ins).len() implies match #[trigger] c.push(ins)[i] {
        Instr::Jump(t) => (t as nat) < encode_list(c.push(ins)).len() + 1,
        Instr::JumpIfFalse(t) => (t as nat) < encode_list(c.push(ins)).len() + 1,
        _ => true,
    } by {
        if i < c.len() {
            assert(c.push(ins)[i] == c[i]);
        } else {
            assert(c.push(ins)[i] == ins);
        }
    }
}

/// Patching a slot with a jump whose target is at most the unchanged byte
/// length keeps all jumps bounded.
proof fn lemma_patch_jump(c: Seq<Instr>, k: int, ins: Instr)
    requires
        0 <= k < c.len(),
        jumps_below(c, encode_list(c).len() + 1),
        encode_instr(ins).len() == encode_instr(c[k]).len(),
        match ins {
            Instr::Jump(t) => (t as nat) <= encode_list(c).len(),
            Instr::JumpIfFalse(t) => (t as nat) <= encode_list(c).len(),
            _ => false,
        },
    ensures
        jumps_below(c.update(k, ins), encode_list(c.update(k, ins)).len() + 1),
        encode_list(c.update(k, ins)).len() == encode_list(c).len(),
{
    lemma_encode_update_len(c, k, ins);
    let u = c.update(k, ins);
    assert forall|i: int| 0 <= i < u.len() implies match #[trigger] u[i] {
        Instr::Jump(t) => (t as nat) < encode_list(u).len() + 1,
        Instr::JumpIfFalse(t) => (t as nat) < encode_list(u).len() + 1,
        _ => true,
    } by {
        if i != k {
            assert(u[i] == c[i]);
        }
    }
}

impl Compiler {
    /// Lowers a list of statements in order.
    #[verifier::loop_isolation(false)]
    fn compile_block(&mut self, stmts: &Vec<Statement>, numbers: &Vec<(String, u64)>) -> (r:
        Result<(), String>)
        requires
            old(self).wf(),
        ensures
            final(self).wf(),
            final(self).functions@ == old(self).functions@,
            final(self).function_names@ == old(self).function_names@,
            final(self).in_function == old(self).in_function,
            final(self).function_code_parts@ == old(self).function_code_parts@,
            seq_extends(old(self).pool(), final(self).pool()),
            seq_extends(old(self).code@, final(self).code@),
            !old(self).in_function ==> final(self).locals@ == old(self).locals@,
            forall|j: int| old(self).pool().len() <= j < final(self).pool().len()
                ==> block_has_const(*stmts, numbers@, #[trigger] final(self).pool()[j]),
            jumps_below(old(self).code@, encode_list(old(self).code@).len() + 1) ==> jumps_below(
                final(self).code@,
                encode_list(final(self).code@).len() + 1,
            ),
            r is Ok ==> final(self).code@.len() >= old(self).code@.len() + stmts@.len(),
            r is Ok ==> (old(self).in_function ==> names_of(final(self).locals@)
                == stmts_new_locals(names_of(old(self).locals@), *stmts, 0)),
            r is Ok ==> forall|v: ValueV| #[trigger] block_has_const(*stmts, numbers@, v)
                ==> pool_has(final(self).pool(), v),
            r is Ok ==> ((jumps_below(old(self).code@, encode_list(old(self).code@).len() + 1)
                && ends_with_return(stmts@)) ==> jumps_below(
                final(self).code@,
                encode_list(final(self).code@).len(),
            )),
            match r {
                Ok(()) => spec_compile_block(
                    old(self).cstate(),
                    *stmts,
                    0,
                    numbers@,
                    old(self).function_names@,
                    old(self).in_function,
                ) == Ok::<CState, Seq<char>>(final(self).cstate()),
                Err(m) => spec_compile_block(
                    old(self).cstate(),
                    *stmts,
                    0,
                    numbers@,
                    old(self).function_names@,
                    old(self).in_function,
                ) == Err::<CState, Seq<char>>(m@),
            },
        decreases stmts, 1nat,
    {
        let ghost pre = *self;
        let ghost b0 = encode_list(pre.code@).len();
        let mut i: usize = 0;
        while i < stmts.len()
            invariant
                i <= stmts@.len(),
                self.wf(),
                self.functions@ == pre.functions@,
                self.function_names@ == pre.function_names@,
                self.in_function == pre.in_function,
                self.function_code_parts@ == pre.function_code_parts@,
                seq_extends(pre.pool(), self.pool()),
                seq_extends(pre.code@, self.code@),
                self.code@.len() >= pre.code@.len() + i,
                !pre.in_function ==> self.locals@ == pre.locals@,
                pre.in_function ==> stmts_new_locals(names_of(pre.locals@), *stmts, 0)
                    == stmts_new_locals(names_of(self.locals@), *stmts, i as int),
                forall|j: int| pre.pool().len() <= j < self.pool().len() ==> block_has_const(
                    *stmts,
                    numbers@,
                    #[trigger] self.pool()[j],
                ),
                forall|k: int, v: ValueV| 0 <= k < i && #[trigger] stmt_has_const(
                    stmts@[k],
                    numbers@,
                    v,
                ) ==> pool_has(self.pool(), v),
                jumps_below(pre.code@, b0 + 1) ==> jumps_below(
                    self.code@,
                    encode_list(self.code@).len() + 1,
                ),
                (jumps_below(pre.code@, b0 + 1) && i > 0 && stmts@[i - 1] matches
                    Statement::Return(_)) ==> jumps_below(
                    self.code@,
                    encode_list(self.code@).len(),
                ),
                spec_compile_block(
                    pre.cstate(),
                    *stmts,
                    0,
                    numbers@,
                    pre.function_names@,
                    pre.in_function,
                ) == spec_compile_block(
                    self.cstate(),
                    *stmts,
                    i as int,
                    numbers@,
                    pre.function_names@,
                    pre.in_function,
                ),
            decreases stmts@.len() - i,
        {
            let ghost mid = *self;
            let step = self.compile_statement(&stmts[i], numbers);
            proof {
                assert forall|j: int| pre.pool().len() <= j < self.pool().len() implies
                    block_has_const(*stmts, numbers@, #[trigger] self.pool()[j]) by {
                    if j >= mid.pool().len() {
                        assert(stmt_has_const(stmts@[i as int], numbers@, self.pool()[j]));
                        lemma_block_has(*stmts, numbers@, self.pool()[j], i as int);
                    }
                }
            }
            match step {
                Ok(()) => (),
                Err(m) => {
                    proof {
                        if jumps_below(pre.code@, b0 + 1) {
                            lemma_encode_split(pre.code@, mid.code@);
                        }
                    }
                    return Err(m);
                },
            }
            proof {
                assert forall|k: int, v: ValueV| 0 <= k < i + 1 && #[trigger] stmt_has_const(
                    stmts@[k],
                    numbers@,
                    v,
                ) implies pool_has(self.pool(), v) by {
                    if k < i {
                        lemma_pool_has_extends(mid.pool(), self.pool(), v);
                    }
                }
                if pre.in_function {
                    assert(stmts_new_locals(names_of(mid.locals@), *stmts, i as int)
                        == stmts_new_locals(
                        stmt_new_locals(names_of(mid.locals@), stmts@[i as int]),
                        *stmts,
                        i as int + 1,
                    ));
                }
                if jumps_below(pre.code@, b0 + 1) {
                    lemma_encode_split(pre.code@, mid.code@);
                    if stmts@[i as int] matches Statement::Return(_) {
                        lemma_encode_split(mid.code@, self.code@);
                        assert(self.code@.len() > mid.code@.len());
                        lemma_encode_len_ge_count(self.code@.skip(mid.code@.len() as int));
                        lemma_jumps_extend(
                            mid.code@,
                            self.code@,
                            encode_list(mid.code@).len() + 1,
                            encode_list(self.code@).len(),
                        );
                    }
                }
            }
            i = i + 1;
        }
        proof {
            assert forall|v: ValueV| #[trigger] block_has_const(*stmts, numbers@, v) implies
                pool_has(self.pool(), v) by {
                let k = choose|k: int| 0 <= k < stmts@.len() && stmt_has_const(
                    #[trigger] stmts@[k],
                    numbers@,
                    v,
                );
                assert(stmt_has_const(stmts@[k], numbers@, v));
            }
        }
        Ok(())
    }

    /// Lowers one statement. Assignments and copies store their expression;
    /// conditionals and loops lower to forward jumps patched once their
    /// blocks are compiled; every jump target stays within the code emitted
    /// so far.
    #[verifier::rlimit(100)]
    fn compile_statement(&mut self, stmt: &Statement, numbers: &Vec<(String, u64)>) -> (r: Result<
        (),
        String,
    >)
        requires
            old(self).wf(),
        ensures
            final(self).wf(),
            final(self).functions@ == old(self).functions@,
            final(self).function_names@ == old(self).function_names@,
            final(self).in_function == old(self).in_function,
            final(self).function_code_parts@ == old(self).function_code_parts@,
            seq_extends(old(self).pool(), final(self).pool()),
            seq_extends(old(self).code@, final(self).code@),
            !old(self).in_function ==> final(self).locals@ == old(self).locals@,
            forall|j: int| old(self).pool().len() <= j < final(self).pool().len()
                ==> stmt_has_const(*stmt, numbers@, #[trigger] final(self).pool()[j]),
            jumps_below(old(self).code@, encode_list(old(self).code@).len() + 1) ==> jumps_below(
                final(self).code@,
                encode_list(final(self).code@).len() + 1,
            ),
            (stmt matches Statement::Return(_)) ==> no_new_jumps(
                old(self).code@,
                final(self).code@,
            ),
            r is Ok ==> final(self).code@.len() > old(self).code@.len(),
            r is Ok ==> (old(self).in_function ==> names_of(final(self).locals@)
                == stmt_new_locals(names_of(old(self).locals@), *stmt)),
            r is Ok ==> forall|v: ValueV| #[trigger] stmt_has_const(*stmt, numbers@, v)
                ==> pool_has(final(self).pool(), v),
            match r {
                Ok(()) => spec_compile_stmt(
                    old(self).cstate(),
                    *stmt,
                    numbers@,
                    old(self).function_names@,
                    old(self).in_function,
                ) == Ok::<CState, Seq<char>>(final(self).cstate()),
                Err(m) => spec_compile_stmt(
                    old(self).cstate(),
                    *stmt,
                    numbers@,
                    old(self).function_names@,
                    old(self).in_function,
                ) == Err::<CState, Seq<char>>(m@),
            },
        decreases stmt, 0nat,
    {
        let ghost p00 = old(self).pool();
        match stmt {
            Statement::Assign(name, e) => {
                match self.compile_expr(e, numbers) {
                    Ok(()) => (),
                    Err(m) => {
                        proof {
                            lemma_stmt_jumps_simple(old(self).code@, self.code@);
                        }
                        return Err(m);
                    },
                }
                let r = self.emit_store(name);
                proof {
                    lemma_stmt_jumps_simple(old(self).code@, self.code@);
                    assert forall|j: int| p00.len() <= j < self.pool().len() implies
                        stmt_has_const(*stmt, numbers@, #[trigger] self.pool()[j]) by {
                        assert(expr_has_const(*e, numbers@, self.pool()[j]));
                    }
                    assert forall|v: ValueV| #[trigger] stmt_has_const(*stmt, numbers@, v) implies
                        pool_has(self.pool(), v) by {
                        assert(expr_has_const(*e, numbers@, v));
                    }
                }
                match r {
                    Ok(()) => Ok(()),
                    Err(m) => Err(m),
                }
            },
            Statement::Copy { dest, source } => {
                match self.compile_expr(source, numbers) {
                    Ok(()) => (),
                    Err(m) => {
                        proof {
                            lemma_stmt_jumps_simple(old(self).code@, self.code@);
                        }
                        return Err(m);
                    },
                }
                let r = self.emit_store(dest);
                proof {
                    lemma_stmt_jumps_simple(old(self).code@, self.code@);
                    assert forall|j: int| p00.len() <= j < self.pool().len() implies
                        stmt_has_const(*stmt, numbers@, #[trigger] self.pool()[j]) by {
                        assert(expr_has_const(*source, numbers@, self.pool()[j]));
                    }
                    assert forall|v: ValueV| #[trigger] stmt_has_const(*stmt, numbers@, v) implies
                        pool_has(self.pool(), v) by {
                        assert(expr_has_const(*source, numbers@, v));
                    }
                }
                match r {
                    Ok(()) => Ok(()),
                    Err(m) => Err(m),
                }
            },
            Statement::Print(e) => {
                match self.compile_expr(e, numbers) {
                    Ok(()) => (),
                    Err(m) => {
                        proof {
                            lemma_stmt_jumps_simple(old(self).code@, self.code@);
                        }
                        return Err(m);
                    },
                }
                self.code.push(Instr::Print);
                proof {
                    lemma_stmt_jumps_simple(old(self).code@, self.code@);
                }
                Ok(())
            },
            Statement::Return(e) => {
                match self.compile_expr(e, numbers) {
                    Ok(()) => (),
                    Err(m) => {
                        proof {
                            lemma_stmt_jumps_simple(old(self).code@, self.code@);
                        }
                        return Err(m);
                    },
                }
                self.code.push(Instr::Return);
                proof {
                    lemma_stmt_jumps_simple(old(self).code@, self.code@);
                }
                Ok(())
            },
            Statement::Halt => {
                self.code.push(Instr::HaltAlt);
                proof {
                    lemma_stmt_jumps_simple(old(self).code@, self.code@);
                }
                Ok(())
            },
            Statement::If { condition, then_block, else_block } => {
                let ghost h0 = jumps_below(old(self).code@, encode_list(old(self).code@).len() + 1);
                match self.compile_expr(condition, numbers) {
                    Ok(()) => (),
                    Err(m) => {
                        proof {
                            lemma_stmt_jumps_simple(old(self).code@, self.code@);
                        }
                        return Err(m);
                    },
                }
                proof {
                    lemma_stmt_jumps_simple(old(self).code@, self.code@);
                    if h0 {
                        lemma_push_jump(self.code@, Instr::JumpIfFalse(0));
                    }
                }
                let jp = self.code.len();
                self.code.push(Instr::JumpIfFalse(0));
                let ghost st_then = *self;
                match self.compile_block(then_block, numbers) {
                    Ok(()) => (),
                    Err(m) => {
                        proof {
                            lemma_pool_region_lift(p00, st_then.pool(), self.pool());
                        }
                        return Err(m);
                    },
                }
                proof {
                    lemma_pool_region_lift(p00, st_then.pool(), self.pool());
                }
                match else_block {
                    Some(eb) => {
                        proof {
                            if h0 {
                                lemma_push_jump(self.code@, Instr::Jump(0));
                            }
                        }
                        let jp2 = self.code.len();
                        self.code.push(Instr::Jump(0));
                        let else_start = match byte_len(&self.code) {
                            Some(x) => x,
                            None => {
                                return Err("code too large".to_owned());
                            },
                        };
                        let ghost cpatch0 = self.code@;
                        self.code[jp] = Instr::JumpIfFalse(else_start);
                        proof {
                            lemma_encode_update_len(cpatch0, jp as int, Instr::JumpIfFalse(
                                else_start,
                            ));
                            if h0 {
                                lemma_patch_jump(cpatch0, jp as int, Instr::JumpIfFalse(
                                    else_start,
                                ));
                            }
                        }
                        let ghost st_else = *self;
                        match self.compile_block(eb, numbers) {
                            Ok(()) => (),
                            Err(m) => {
                                proof {
                                    lemma_pool_region_lift(p00, st_else.pool(), self.pool());
                                    assert forall|j: int| p00.len() <= j < self.pool().len()
                                        implies stmt_has_const(
                                        *stmt,
                                        numbers@,
                                        #[trigger] self.pool()[j],
                                    ) by {
                                        if j >= st_else.pool().len() {
                                            assert(block_has_const(*eb, numbers@, self.pool()[j]));
                                        }
                                    }
                                }
                                return Err(m);
                            },
                        }
                        let end_pos = match byte_len(&self.code) {
                            Some(x) => x,
                            None => {
                                return Err("code too large".to_owned());
                            },
                        };
                        let ghost cpatch1 = self.code@;
                        self.code[jp2] = Instr::Jump(end_pos);
                        proof {
                            lemma_encode_update_len(cpatch1, jp2 as int, Instr::Jump(end_pos));
                            if h0 {
                                lemma_patch_jump(cpatch1, jp2 as int, Instr::Jump(end_pos));
                            }
                            lemma_pool_region_lift(p00, st_else.pool(), self.pool());
                            assert forall|j: int| p00.len() <= j < self.pool().len() implies
                                stmt_has_const(*stmt, numbers@, #[trigger] self.pool()[j]) by {
                                if j >= st_else.pool().len() {
                                    assert(block_has_const(*eb, numbers@, self.pool()[j]));
                                } else if j >= st_then.pool().len() {
                                    assert(block_has_const(*then_block, numbers@, self.pool()[j]));
                                } else if j >= p00.len() {
                                    assert(expr_has_const(*condition, numbers@, self.pool()[j]));
                                }
                            }
                            assert forall|v: ValueV| #[trigger] stmt_has_const(*stmt, numbers@, v)
                                implies pool_has(self.pool(), v) by {
                                assert(expr_has_const(*condition, numbers@, v) || block_has_const(
                                    *then_block,
                                    numbers@,
                                    v,
                                ) || block_has_const(*eb, numbers@, v));
                                if expr_has_const(*condition, numbers@, v) {
                                    lemma_pool_has_extends(st_then.pool(), st_else.pool(), v);
                                    lemma_pool_has_extends(st_else.pool(), self.pool(), v);
                                } else if block_has_const(*then_block, numbers@, v) {
                                    lemma_pool_has_extends(st_else.pool(), self.pool(), v);
                                }
                            }
                            if self.in_function {
                                assert(names_of(self.locals@) == stmt_new_locals(
                                    names_of(old(self).locals@),
                                    *stmt,
                                ));
                            }
                        }
                        Ok(())
                    },
                    None => {
                        let end_pos = match byte_len(&self.code) {
                            Some(x) => x,
                            None => {
                                return Err("code too large".to_owned());
                            },
                        };
                        let ghost cpatch0 = self.code@;
                        self.code[jp] = Instr::JumpIfFalse(end_pos);
                        proof {
                            lemma_encode_update_len(cpatch0, jp as int, Instr::JumpIfFalse(
                                end_pos,
                            ));
                            if h0 {
                                lemma_patch_jump(cpatch0, jp as int, Instr::JumpIfFalse(end_pos));
                            }
                            assert forall|j: int| p00.len() <= j < self.pool().len() implies
                                stmt_has_const(*stmt, numbers@, #[trigger] self.pool()[j]) by {
                                if j >= st_then.pool().len() {
                                    assert(block_has_const(*then_block, numbers@, self.pool()[j]));
                                } else if j >= p00.len() {
                                    assert(expr_has_const(*condition, numbers@, self.pool()[j]));
                                }
                            }
                            assert forall|v: ValueV| #[trigger] stmt_has_const(*stmt, numbers@, v)
                                implies pool_has(self.pool(), v) by {
                                assert(expr_has_const(*condition, numbers@, v) || block_has_const(
                                    *then_block,
                                    numbers@,
                                    v,
                                ));
                                if expr_has_const(*condition, numbers@, v) {
                                    lemma_pool_has_extends(st_then.pool(), self.pool(), v);
                                }
                            }
                        }
                        Ok(())
                    },
                }
            },
            Statement::While { condition, body } => {
                let ghost h0 = jumps_below(old(self).code@, encode_list(old(self).code@).len() + 1);
                let loop_start = match byte_len(&self.code) {
                    Some(x) => x,
                    None => {
                        return Err("code too large".to_owned());
                    },
                };
                match self.compile_expr(condition, numbers) {
                    Ok(()) => (),
                    Err(m) => {
                        proof {
                            lemma_stmt_jumps_simple(old(self).code@, self.code@);
                        }
                        return Err(m);
                    },
                }
                proof {
                    lemma_stmt_jumps_simple(old(self).code@, self.code@);
                    if h0 {
                        lemma_push_jump(self.code@, Instr::JumpIfFalse(0));
                    }
                }
                let jp = self.code.len();
                self.code.push(Instr::JumpIfFalse(0));
                let ghost st_body = *self;
                match self.compile_block(body, numbers) {
                    Ok(()) => (),
                    Err(m) => {
                        proof {
                            lemma_pool_region_lift(p00, st_body.pool(), self.pool());
                        }
                        return Err(m);
                    },
                }
                proof {
                    lemma_pool_region_lift(p00, st_body.pool(), self.pool());
                    if h0 {
                        lemma_encode_split(old(self).code@, self.code@);
                        lemma_push_jump(self.code@, Instr::Jump(loop_start));
                    }
                }
                self.code.push(Instr::Jump(loop_start));
                let end_pos = match byte_len(&self.code) {
                    Some(x) => x,
                    None => {
                        return Err("code too large".to_owned());
                    },
                };
                let ghost cpatch0 = self.code@;
                self.code[jp] = Instr::JumpIfFalse(end_pos);
                proof {
                    lemma_encode_update_len(cpatch0, jp as int, Instr::JumpIfFalse(end_pos));
                    if h0 {
                        lemma_patch_jump(cpatch0, jp as int, Instr::JumpIfFalse(end_pos));
                    }
                    assert forall|j: int| p00.len() <= j < self.pool().len() implies
                        stmt_has_const(*stmt, numbers@, #[trigger] self.pool()[j]) by {
                        if j >= st_body.pool().len() {
                            assert(block_has_const(*body, numbers@, self.pool()[j]));
                        } else if j >= p00.len() {
                            assert(expr_has_const(*condition, numbers@, self.pool()[j]));
                        }
                    }
                    assert forall|v: ValueV| #[trigger] stmt_has_const(*stmt, numbers@, v) implies
                        pool_has(self.pool(), v) by {
                        assert(expr_has_const(*condition, numbers@, v) || block_has_const(
                            *body,
                            numbers@,
                            v,
                        ));
                        if expr_has_const(*condition, numbers@, v) {
                            lemma_pool_has_extends(st_body.pool(), self.pool(), v);
                        }
                    }
                }
                Ok(())
            },
        }
    }
}


/// The local names after binding the parameters, in order.
pub open spec fn params_new_locals(ns: Seq<Seq<char>>, params: Vec<String>, i: int) -> Seq<
    Seq<char>,
>
    decreases params@.len() - i,
{
    if i < 0 || i >= params@.len() {
        ns
    } else {
        params_new_locals(insert_name(ns, params@[i]@), params, i + 1)
    }
}

/// The distinct local names of a function: its parameters followed by the
/// names its body assigns, each at its first appearance.
pub open spec fn func_local_names(f: &Function) -> Seq<Seq<char>> {
    stmts_new_locals(params_new_locals(Seq::empty(), f.params, 0), f.body, 0)
}

proof fn lemma_program_has_func(p: &Program, nums: Seq<(String, u64)>, v: ValueV, k: int)
    requires
        0 <= k < p.functions@.len(),
        func_has_const(&p.functions@[k], nums, v),
    ensures
        program_has_const(p, nums, v),
{
    assert(exists|i: int| 0 <= i < p.functions@.len() && #[trigger] func_has_const(
        &p.functions@[i],
        nums,
        v,
    ));
}

impl Compiler {
    /// The position of the entry binding `name` among the current locals.
    #[verifier::loop_isolation(false)]
    fn find_local_pos(&self, name: &String) -> (r: Option<usize>)
        ensures
            match r {
                Some(p) => p < self.locals@.len() && self.locals@[p as int].0@ == name@
                    && local_pos(self.locals@, name@, 0) == Some(p as int),
                None => !names_of(self.locals@).contains(name@) && local_pos(
                    self.locals@,
                    name@,
                    0,
                ) is None,
            },
    {
        let mut i: usize = 0;
        while i < self.locals.len()
            invariant
                i <= self.locals@.len(),
                forall|k: int| 0 <= k < i ==> #[trigger] self.locals@[k].0@ != name@,
                local_pos(self.locals@, name@, 0) == local_pos(self.locals@, name@, i as int),
            decreases self.locals@.len() - i,
        {
            if crate::text::str_eq(self.locals[i].0.as_str(), name.as_str()) {
                proof {
                    assert(local_pos(self.locals@, name@, i as int) == Some(i as int));
                }
                return Some(i);
            }
            i = i + 1;
        }
        proof {
            assert(local_pos(self.locals@, name@, i as int) is None);
        }
        proof {
            if names_of(self.locals@).contains(name@) {
                let k = choose|k: int| 0 <= k < names_of(self.locals@).len() && names_of(
                    self.locals@,
                )[k] == name@;
            }
        }
        None
    }

    /// Binds one parameter name to a slot, overwriting the slot of an
    /// earlier binding of the same spelling.
    fn insert_param(&mut self, name: &String, idx: u16) -> (r: Result<(), String>)
        requires
            old(self).wf(),
            old(self).locals@.len() < 0xFFFF,
        ensures
            final(self).wf(),
            final(self).constants@ == old(self).constants@,
            final(self).functions@ == old(self).functions@,
            final(self).function_names@ == old(self).function_names@,
            final(self).code@ == old(self).code@,
            final(self).in_function == old(self).in_function,
            final(self).function_code_parts@ == old(self).function_code_parts@,
            r is Ok,
            names_of(final(self).locals@) == insert_name(names_of(old(self).locals@), name@),
            final(self).locals@.len() <= old(self).locals@.len() + 1,
            final(self).locals@ == spec_insert_param(old(self).locals@, *name, idx),
    {
        match self.find_local_pos(name) {
            Some(p) => {
                let ghost l0 = self.locals@;
                self.locals[p] = (name.clone(), idx);
                proof {
                    assert(names_of(self.locals@) =~= names_of(l0));
                    assert(names_of(l0).contains(name@)) by {
                        assert(names_of(l0)[p as int] == name@);
                    }
                }
                Ok(())
            },
            None => {
                let ghost l0 = self.locals@;
                self.locals.push((name.clone(), idx));
                proof {
                    assert(names_of(self.locals@) =~= names_of(l0).push(name@));
                    assert forall|i: int, j: int|
                        0 <= i < j < names_of(self.locals@).len() implies names_of(
                        self.locals@,
                    )[i] != names_of(self.locals@)[j] by {
                        if j < l0.len() {
                            assert(names_of(l0)[i] != names_of(l0)[j]);
                        } else {
                            assert(names_of(self.locals@)[j] == name@);
                            assert(names_of(l0)[i] == names_of(self.locals@)[i]);
                        }
                    }
                }
                Ok(())
            },
        }
    }

    /// Compiles one function definition into its own instruction buffer:
    /// parameters become the first local slots, the body follows, and a
    /// body that does not end in a return gets a default return of the
    /// empty text. The finished buffer, the table entry and the interned
    /// name are recorded; the main buffer is untouched.
    #[verifier::loop_isolation(false)]
    #[verifier::rlimit(100)]
    fn compile_function(&mut self, func: &Function, numbers: &Vec<(String, u64)>) -> (r: Result<
        (),
        String,
    >)
        requires
            old(self).wf(),
            !old(self).in_function,
            old(self).locals@.len() == 0,
        ensures
            final(self).wf(),
            !final(self).in_function,
            final(self).locals@.len() == 0,
            final(self).code@ == old(self).code@,
            seq_extends(old(self).pool(), final(self).pool()),
            forall|j: int| old(self).pool().len() <= j < final(self).pool().len()
                ==> func_has_const(func, numbers@, #[trigger] final(self).pool()[j]),
            match r {
                Ok(()) => {
                    &&& final(self).functions@.len() == old(self).functions@.len() + 1
                    &&& seq_extends(old(self).functions@, final(self).functions@)
                    &&& final(self).function_names@.len() == old(self).function_names@.len() + 1
                    &&& seq_extends(old(self).function_names@, final(self).function_names@)
                    &&& final(self).function_names@.last()@ == func.name@
                    &&& final(self).function_code_parts@.len() == old(
                        self,
                    ).function_code_parts@.len() + 1
                    &&& (forall|i: int| 0 <= i < old(self).function_code_parts@.len()
                        ==> #[trigger] final(self).function_code_parts@[i]@ == old(
                        self,
                    ).function_code_parts@[i]@)
                    &&& ({
                        let m = final(self).functions@.last();
                        let part = final(self).function_code_parts@.last();
                        &&& m.arity as nat == func.params@.len()
                        &&& m.local_count as nat == func_local_names(func).len()
                        &&& m.code_offset == 0
                        &&& (m.name_const_idx as nat) < final(self).pool().len()
                        &&& final(self).pool()[m.name_const_idx as int] == ValueV::Str(func.name@)
                        &&& part@.len() > 0
                        &&& jumps_below(part@, encode_list(part@).len())
                    })
                    &&& (forall|v: ValueV| #[trigger] func_has_const(func, numbers@, v)
                        ==> pool_has(final(self).pool(), v))
                },
                Err(_) => {
                    &&& final(self).functions@ == old(self).functions@
                    &&& final(self).function_names@ == old(self).function_names@
                    &&& final(self).function_code_parts@ == old(self).function_code_parts@
                },
            },
            match r {
                Ok(()) => spec_compile_function(
                    old(self).pool(),
                    old(self).function_names@,
                    old(self).functions@,
                    parts_v(old(self).function_code_parts@),
                    *func,
                    numbers@,
                ) == Ok::<(Seq<ValueV>, Seq<String>, Seq<FuncMeta>, Seq<Seq<Instr>>), Seq<char>>(
                    (
                        final(self).pool(),
                        final(self).function_names@,
                        final(self).functions@,
                        parts_v(final(self).function_code_parts@),
                    ),
                ),
                Err(m) => spec_compile_function(
                    old(self).pool(),
                    old(self).function_names@,
                    old(self).functions@,
                    parts_v(old(self).function_code_parts@),
                    *func,
                    numbers@,
                ) == Err::<(Seq<ValueV>, Seq<String>, Seq<FuncMeta>, Seq<Seq<Instr>>), Seq<char>>(
                    m@,
                ),
            },
    {
        if func.params.len() > 0xFFFF {
            return Err("too many parameters".to_owned());
        }
        if self.functions.len() >= 0xFFFF_FFFD {
            return Err("too many functions".to_owned());
        }
        let ghost p0 = self.pool();
        let ni = match self.add_const(Constant::Str(func.name.clone())) {
            Ok(i) => i,
            Err(m) => {
                return Err(m);
            },
        };
        let ghost p1 = self.pool();
        let mut saved_code: Vec<Instr> = Vec::new();
        core::mem::swap(&mut saved_code, &mut self.code);
        self.in_function = true;
        let ghost c_name = *self;
        let ghost outer_code = saved_code@;
        proof {
            assert(names_of(self.locals@) =~= Seq::<Seq<char>>::empty());
            assert(self.locals@ =~= Seq::<(String, u16)>::empty());
        }
        let mut pi: usize = 0;
        while pi < func.params.len()
            invariant
                pi <= func.params@.len(),
                func.params@.len() <= 0xFFFF,
                self.wf(),
                self.in_function,
                self.locals@.len() <= pi,
                self.constants@ == c_name.constants@,
                self.functions@ == c_name.functions@,
                self.function_names@ == c_name.function_names@,
                self.function_code_parts@ == c_name.function_code_parts@,
                self.code@ == Seq::<Instr>::empty(),
                saved_code@ == outer_code,
                params_new_locals(Seq::empty(), func.params, 0) == params_new_locals(
                    names_of(self.locals@),
                    func.params,
                    pi as int,
                ),
                spec_params(Seq::empty(), func.params, 0) == spec_params(
                    self.locals@,
                    func.params,
                    pi as int,
                ),
            decreases func.params@.len() - pi,
        {
            let ghost ns_pre = names_of(self.locals@);
            let r = self.insert_param(&func.params[pi], pi as u16);
            proof {
                assert(r is Ok);
                assert(params_new_locals(ns_pre, func.params, pi as int) == params_new_locals(
                    insert_name(ns_pre, func.params@[pi as int]@),
                    func.params,
                    pi as int + 1,
                ));
            }
            pi = pi + 1;
        }
        let ghost ns_params = names_of(self.locals@);
        proof {
            assert(ns_params == params_new_locals(Seq::empty(), func.params, 0));
            assert(jumps_below(self.code@, encode_list(self.code@).len() + 1));
        }
        let ghost st_body = *self;
        match self.compile_block(&func.body, numbers) {
            Ok(()) => (),
            Err(m) => {
                proof {
                    lemma_pool_region_lift(p0, p1, self.pool());
                    assert forall|j: int| p0.len() <= j < self.pool().len() implies
                        func_has_const(func, numbers@, #[trigger] self.pool()[j]) by {
                        if j >= p1.len() {
                            assert(block_has_const(func.body, numbers@, self.pool()[j]));
                        } else {
                            assert(self.pool()[j] == ValueV::Str(func.name@));
                        }
                    }
                }
                core::mem::swap(&mut saved_code, &mut self.code);
                self.in_function = false;
                self.locals = Vec::new();
                return Err(m);
            },
        }
        let has_return = if func.body.len() > 0 {
            match &func.body[func.body.len() - 1] {
                Statement::Return(_) => true,
                _ => false,
            }
        } else {
            false
        };
        proof {
            assert(has_return == ends_with_return(func.body@));
        }
        let ghost p2 = self.pool();
        if !has_return {
            let ei = match self.add_const(Constant::Str("".to_owned())) {
                Ok(i) => i,
                Err(m) => {
                    proof {
                        lemma_pool_region_lift(p0, p1, self.pool());
                        assert forall|j: int| p0.len() <= j < self.pool().len() implies
                            func_has_const(func, numbers@, #[trigger] self.pool()[j]) by {
                            if j >= p1.len() {
                                assert(block_has_const(func.body, numbers@, self.pool()[j]));
                            } else {
                                assert(self.pool()[j] == ValueV::Str(func.name@));
                            }
                        }
                    }
                    core::mem::swap(&mut saved_code, &mut self.code);
                    self.in_function = false;
                    self.locals = Vec::new();
                    return Err(m);
                },
            };
            let ghost c_pre = self.code@;
            self.code.push(Instr::LoadConst(ei));
            self.code.push(Instr::Return);
            proof {
                lemma_encode_split(c_pre, self.code@);
                lemma_encode_len_ge_count(self.code@.skip(c_pre.len() as int));
                lemma_jumps_extend(
                    c_pre,
                    self.code@,
                    encode_list(c_pre).len() + 1,
                    encode_list(self.code@).len(),
                );
            }
        }
        proof {
            assert(jumps_below(self.code@, encode_list(self.code@).len()));
            assert(self.code@.len() > 0);
        }
        let arity = func.params.len() as u16;
        let local_count = self.locals.len() as u16;
        proof {
            assert(names_of(self.locals@).len() == self.locals@.len());
            assert(names_of(self.locals@) == func_local_names(func));
        }
        core::mem::swap(&mut saved_code, &mut self.code);
        let meta = FuncMeta { name_const_idx: ni, arity, local_count, code_offset: 0 };
        self.functions.push(meta);
        self.function_names.push(func.name.clone());
        let ghost parts0 = self.function_code_parts@;
        let ghost part_final = saved_code@;
        self.function_code_parts.push(saved_code);
        self.locals = Vec::new();
        self.in_function = false;
        proof {
            assert(parts_v(self.function_code_parts@) =~= parts_v(parts0).push(part_final));
            lemma_pool_region_lift(p0, p1, self.pool());
            assert forall|j: int| p0.len() <= j < self.pool().len() implies func_has_const(
                func,
                numbers@,
                #[trigger] self.pool()[j],
            ) by {
                if j >= p2.len() {
                    assert(self.pool()[j] == ValueV::Str(""@));
                } else if j >= p1.len() {
                    assert(self.pool()[j] == p2[j]);
                    assert(block_has_const(func.body, numbers@, self.pool()[j]));
                } else {
                    assert(self.pool()[j] == ValueV::Str(func.name@));
                }
            }
            assert forall|v: ValueV| #[trigger] func_has_const(func, numbers@, v) implies
                pool_has(self.pool(), v) by {
                if v == ValueV::Str(func.name@) {
                    assert(self.pool()[ni as int] == ValueV::Str(func.name@));
                } else if block_has_const(func.body, numbers@, v) {
                    assert(pool_has(p2, v));
                    lemma_pool_has_extends(p2, self.pool(), v);
                } else {
                    assert(!ends_with_return(func.body@) && v == ValueV::Str(""@));
                }
            }
        }
        Ok(())
    }
}


// ---------------------------------------------------------------------------
// The artifact writer
// ---------------------------------------------------------------------------

/// The serialized constant pool: tag 1 and eight little-endian bytes for a
/// double, tag 2 and a length-prefixed UTF-8 text for a string.
pub open spec fn spec_serialize_consts(pool: Seq<ValueV>) -> Seq<u8>
    decreases pool.len(),
{
    if pool.len() == 0 {
        Seq::empty()
    } else {
        (match pool[0] {
            ValueV::Num(b) => seq![1u8] + u64_le_bytes(b),
            ValueV::Str(t) => seq![2u8] + u32_le_bytes(
                vstd::utf8::encode_utf8(t).len() as u32,
            ) + vstd::utf8::encode_utf8(t),
        }) + spec_serialize_consts(pool.drop_first())
    }
}

/// The serialized function table: constant index of the name, arity, local
/// count, code offset, each little-endian.
pub open spec fn spec_serialize_funcs(funcs: Seq<FuncMeta>) -> Seq<u8>
    decreases funcs.len(),
{
    if funcs.len() == 0 {
        Seq::empty()
    } else {
        u32_le_bytes(funcs[0].name_const_idx) + u16_le_bytes(funcs[0].arity) + u16_le_bytes(
            funcs[0].local_count,
        ) + u32_le_bytes(funcs[0].code_offset) + spec_serialize_funcs(funcs.drop_first())
    }
}

/// The whole artifact: magic, version four, zero flags, the counted
/// constant pool, the counted function table, the sized code section.
pub open spec fn spec_serialize(pool: Seq<ValueV>, funcs: Seq<FuncMeta>, code: Seq<u8>) -> Seq<
    u8,
> {
    seq![66u8, 82u8, 66u8, 67u8] + u16_le_bytes(4) + u16_le_bytes(0) + u32_le_bytes(
        pool.len() as u32,
    ) + spec_serialize_consts(pool) + u32_le_bytes(funcs.len() as u32) + spec_serialize_funcs(
        funcs,
    ) + u32_le_bytes(code.len() as u32) + code
}

proof fn lemma_serialize_consts_push(pool: Seq<ValueV>, v: ValueV)
    ensures
        spec_serialize_consts(pool.push(v)) == spec_serialize_consts(pool)
            + spec_serialize_consts(seq![v]),
    decreases pool.len(),
{
    let p = pool.push(v);
    if pool.len() == 0 {
        assert(p[0] == v);
        assert(p.drop_first() =~= Seq::<ValueV>::empty());
        assert(seq![v].drop_first() =~= Seq::<ValueV>::empty());
        assert(seq![v][0] == v);
        assert(spec_serialize_consts(p) =~= spec_serialize_consts(pool)
            + spec_serialize_consts(seq![v]));
    } else {
        assert(p[0] == pool[0]);
        assert(p.drop_first() =~= pool.drop_first().push(v));
        lemma_serialize_consts_push(pool.drop_first(), v);
        assert(spec_serialize_consts(p) =~= spec_serialize_consts(pool)
            + spec_serialize_consts(seq![v]));
    }
}

proof fn lemma_serialize_funcs_push(funcs: Seq<FuncMeta>, f: FuncMeta)
    ensures
        spec_serialize_funcs(funcs.push(f)) == spec_serialize_funcs(funcs)
            + spec_serialize_funcs(seq![f]),
    decreases funcs.len(),
{
    let p = funcs.push(f);
    if funcs.len() == 0 {
        assert(p[0] == f);
        assert(p.drop_first() =~= Seq::<FuncMeta>::empty());
        assert(seq![f].drop_first() =~= Seq::<FuncMeta>::empty());
        assert(seq![f][0] == f);
        assert(spec_serialize_funcs(p) =~= spec_serialize_funcs(funcs)
            + spec_serialize_funcs(seq![f]));
    } else {
        assert(p[0] == funcs[0]);
        assert(p.drop_first() =~= funcs.drop_first().push(f));
        lemma_serialize_funcs_push(funcs.drop_first(), f);
        assert(spec_serialize_funcs(p) =~= spec_serialize_funcs(funcs)
            + spec_serialize_funcs(seq![f]));
    }
}

/// Every string entry's UTF-8 byte length fits the 32-bit length prefix.
pub open spec fn pool_strings_fit(pool: Seq<ValueV>) -> bool {
    forall|i: int| 0 <= i < pool.len() ==> match #[trigger] pool[i] {
        ValueV::Str(t) => vstd::utf8::encode_utf8(t).len() <= 0xFFFF_FFFF,
        ValueV::Num(_) => true,
    }
}

/// Assembles an instruction buffer to its encoded bytes.
#[verifier::loop_isolation(false)]
fn assemble(code: &Vec<Instr>) -> (r: Vec<u8>)
    ensures
        r@ == encode_list(code@),
{
    let mut out: Vec<u8> = Vec::new();
    proof {
        assert(code@.take(0) =~= Seq::<Instr>::empty());
        assert(out@ =~= encode_list(code@.take(0)));
    }
    let mut i: usize = 0;
    while i < code.len()
        invariant
            i <= code@.len(),
            out@ == encode_list(code@.take(i as int)),
        decreases code@.len() - i,
    {
        proof {
            assert(code@.take(i as int + 1) =~= code@.take(i as int).push(code@[i as int]));
            lemma_encode_list_push(code@.take(i as int), code@[i as int]);
        }
        let ghost o0 = out@;
        match code[i] {
            Instr::Halt => out.push(0x01),
            Instr::LoadConst(c) => {
                out.push(0x02);
                crate::wire::push_u32_le(&mut out, c);
            },
            Instr::LoadGlobal(g) => {
                out.push(0x03);
                out.push(g);
            },
            Instr::StoreGlobal(g) => {
                out.push(0x04);
                out.push(g);
            },
            Instr::Add => out.push(0x05),
            Instr::Sub => out.push(0x06),
            Instr::Mul => out.push(0x07),
            Instr::Div => out.push(0x08),
            Instr::Print => out.push(0x09),
            Instr::Input => out.push(0x0a),
            Instr::Jump(t) => {
                out.push(0x0b);
                crate::wire::push_u32_le(&mut out, t);
            },
            Instr::JumpIfFalse(t) => {
                out.push(0x0c);
                crate::wire::push_u32_le(&mut out, t);
            },
            Instr::Call(f) => {
                out.push(0x0d);
                crate::wire::push_u32_le(&mut out, f);
            },
            Instr::Return => out.push(0x0e),
            Instr::LoadLocal(l) => {
                out.push(0x0f);
                crate::wire::push_u16_le(&mut out, l);
            },
            Instr::StoreLocal(l) => {
                out.push(0x10);
                crate::wire::push_u16_le(&mut out, l);
            },
            Instr::HaltAlt => out.push(0x12),
        }
        proof {
            assert(out@ =~= o0 + encode_instr(code@[i as int]));
        }
        i = i + 1;
    }
    proof {
        assert(code@.take(code@.len() as int) =~= code@);
    }
    out
}

impl Compiler {
    /// Serializes the pool, the function table and the assembled code into
    /// the artifact's byte layout.
    #[verifier::loop_isolation(false)]
    fn write_bytecode(&self, code: &Vec<u8>) -> (r: Result<Vec<u8>, String>)
        requires
            self.wf(),
            code@.len() <= 0xFFFF_FFFF,
        ensures
            match r {
                Ok(bytes) => bytes@ == spec_serialize(self.pool(), self.functions@, code@)
                    && pool_strings_fit(self.pool()),
                Err(m) => m@ == "string constant too large"@ && !pool_strings_fit(self.pool()),
            },
    {
        let mut out: Vec<u8> = Vec::new();
        out.push(66);
        out.push(82);
        out.push(66);
        out.push(67);
        crate::wire::push_u16_le(&mut out, 4);
        crate::wire::push_u16_le(&mut out, 0);
        crate::wire::push_u32_le(&mut out, self.constants.len() as u32);
        let ghost header = out@;
        proof {
            assert(header =~= seq![66u8, 82u8, 66u8, 67u8] + u16_le_bytes(4) + u16_le_bytes(0)
                + u32_le_bytes(self.pool().len() as u32));
            assert(self.pool().take(0) =~= Seq::<ValueV>::empty());
            assert(out@ =~= header + spec_serialize_consts(self.pool().take(0)));
        }
        let mut i: usize = 0;
        while i < self.constants.len()
            invariant
                i <= self.constants@.len(),
                out@ == header + spec_serialize_consts(self.pool().take(i as int)),
                forall|k: int| 0 <= k < i ==> match #[trigger] self.pool()[k] {
                    ValueV::Str(t) => vstd::utf8::encode_utf8(t).len() <= 0xFFFF_FFFF,
                    ValueV::Num(_) => true,
                },
            decreases self.constants@.len() - i,
        {
            proof {
                assert(self.pool().take(i as int + 1) =~= self.pool().take(i as int).push(
                    self.pool()[i as int],
                ));
                lemma_serialize_consts_push(self.pool().take(i as int), self.pool()[i as int]);
            }
            let ghost o0 = out@;
            match &self.constants[i] {
                Constant::Num(b) => {
                    out.push(1);
                    crate::wire::push_u64_le(&mut out, *b);
                    proof {
                        let single = seq![self.pool()[i as int]];
                        assert(self.pool()[i as int] == ValueV::Num(*b));
                        assert(single.len() == 1);
                        assert(single[0] == self.pool()[i as int]);
                        assert(single.drop_first() =~= Seq::<ValueV>::empty());
                        assert(spec_serialize_consts(single) =~= seq![1u8] + u64_le_bytes(*b));
                        assert(out@ =~= o0 + spec_serialize_consts(single));
                    }
                },
                Constant::Str(t) => {
                    let bytes = t.as_str().as_bytes_vec();
                    if bytes.len() > 0xFFFF_FFFF {
                        proof {
                            assert(!pool_strings_fit(self.pool())) by {
                                assert(self.pool()[i as int] == ValueV::Str(t@));
                                assert(vstd::utf8::encode_utf8(t@).len() > 0xFFFF_FFFF);
                            }
                        }
                        return Err("string constant too large".to_owned());
                    }
                    out.push(2);
                    crate::wire::push_u32_le(&mut out, bytes.len() as u32);
                    let mut bytes = bytes;
                    out.append(&mut bytes);
                    proof {
                        let single = seq![self.pool()[i as int]];
                        assert(self.pool()[i as int] == ValueV::Str(t@));
                        assert(single.len() == 1);
                        assert(single[0] == self.pool()[i as int]);
                        assert(single.drop_first() =~= Seq::<ValueV>::empty());
                        assert(spec_serialize_consts(single) =~= seq![2u8] + u32_le_bytes(
                            vstd::utf8::encode_utf8(t@).len() as u32,
                        ) + vstd::utf8::encode_utf8(t@));
                        assert(out@ =~= o0 + spec_serialize_consts(single));
                    }
                },
            }
            i = i + 1;
        }
        proof {
            assert(self.pool().take(self.pool().len() as int) =~= self.pool());
        }
        crate::wire::push_u32_le(&mut out, self.functions.len() as u32);
        let ghost mid = out@;
        proof {
            assert(self.functions@.take(0) =~= Seq::<FuncMeta>::empty());
            assert(out@ =~= mid + spec_serialize_funcs(self.functions@.take(0)));
        }
        let mut fi: usize = 0;
        while fi < self.functions.len()
            invariant
                fi <= self.functions@.len(),
                out@ == mid + spec_serialize_funcs(self.functions@.take(fi as int)),
            decreases self.functions@.len() - fi,
        {
            proof {
                assert(self.functions@.take(fi as int + 1) =~= self.functions@.take(
                    fi as int,
                ).push(self.functions@[fi as int]));
                lemma_serialize_funcs_push(
                    self.functions@.take(fi as int),
                    self.functions@[fi as int],
                );
            }
            let ghost o0 = out@;
            let f = self.functions[fi];
            crate::wire::push_u32_le(&mut out, f.name_const_idx);
            crate::wire::push_u16_le(&mut out, f.arity);
            crate::wire::push_u16_le(&mut out, f.local_count);
            crate::wire::push_u32_le(&mut out, f.code_offset);
            proof {
                let single = seq![self.functions@[fi as int]];
                assert(f == self.functions@[fi as int]);
                assert(single.len() == 1);
                assert(single[0] == self.functions@[fi as int]);
                assert(single.drop_first() =~= Seq::<FuncMeta>::empty());
                assert(spec_serialize_funcs(single) =~= u32_le_bytes(f.name_const_idx)
                    + u16_le_bytes(f.arity) + u16_le_bytes(f.local_count) + u32_le_bytes(
                    f.code_offset,
                ));
                assert(out@ =~= o0 + spec_serialize_funcs(single));
            }
            fi = fi + 1;
        }
        proof {
            assert(self.functions@.take(self.functions@.len() as int) =~= self.functions@);
        }
        crate::wire::push_u32_le(&mut out, code.len() as u32);
        let mut code_copy: Vec<u8> = Vec::new();
        let mut ci: usize = 0;
        while ci < code.len()
            invariant
                ci <= code@.len(),
                code_copy@ == code@.take(ci as int),
            decreases code@.len() - ci,
        {
            proof {
                assert(code@.take(ci as int + 1) =~= code@.take(ci as int).push(
                    code@[ci as int],
                ));
            }
            code_copy.push(code[ci]);
            ci = ci + 1;
        }
        proof {
            assert(code@.take(code@.len() as int) =~= code@);
        }
        out.append(&mut code_copy);
        proof {
            assert(out@ =~= spec_serialize(self.pool(), self.functions@, code@));
        }
        Ok(out)
    }
}


/// What a successful compilation guarantees of the artifact bytes, through
/// the pool, function table and code section they serialize:
/// - the pool holds no duplicate entry, and holds exactly the values the
///   program mentions: its literals (under the given numeric bindings),
///   its function names, and the empty text backing a default return;
/// - the function table lists the user functions in declaration order,
///   each with its interned name, its parameter count as arity, its count
///   of distinct assigned names (parameters included) as local count, and
///   a code offset inside the code section;
/// - the code section is the encoding of an instruction sequence whose
///   every jump operand lies inside the section.
pub open spec fn good_artifact(
    bytes: Seq<u8>,
    program: Program,
    nums: Seq<(String, u64)>,
    pool: Seq<ValueV>,
    funcs: Seq<FuncMeta>,
    code: Seq<u8>,
) -> bool {
    &&& bytes == spec_serialize(pool, funcs, code)
    &&& pool_distinct(pool)
    &&& (forall|j: int| 0 <= j < pool.len() ==> program_has_const(
        &program,
        nums,
        #[trigger] pool[j],
    ))
    &&& (forall|v: ValueV| #[trigger] program_has_const(&program, nums, v) ==> pool_has(pool, v))
    &&& funcs.len() == program.functions@.len()
    &&& (forall|i: int| 0 <= i < funcs.len() ==> {
        let f = #[trigger] funcs[i];
        &&& f.arity as nat == program.functions@[i].params@.len()
        &&& f.local_count as nat == func_local_names(&program.functions@[i]).len()
        &&& (f.name_const_idx as nat) < pool.len()
        &&& pool[f.name_const_idx as int] == ValueV::Str(program.functions@[i].name@)
        &&& f.code_offset as nat <= code.len()
    })
    &&& (exists|instrs: Seq<Instr>| #[trigger] encode_list(instrs) == code && jumps_below(
        instrs,
        code.len(),
    ))
    &&& walk_ok(code, 0)
    &&& pool.len() <= 0xFFFF_FFFF
    &&& funcs.len() <= 0xFFFF_FFFF
    &&& code.len() <= 0xFFFF_FFFF
    &&& pool_strings_fit(pool)
}

/// Compiles a program to a bytecode artifact, given the double bit
/// patterns of its numeric literal spellings. On success the bytes are the
/// serialization of a pool, table and code section with the guarantees of
/// [`good_artifact`].
#[verifier::loop_isolation(false)]
pub fn compile(program: Program, numbers: &Vec<(String, u64)>) -> (r: Result<Vec<u8>, String>)
    ensures
        r matches Ok(bytes) ==> exists|t: (Seq<ValueV>, Seq<FuncMeta>, Seq<u8>)| good_artifact(
            bytes@,
            program,
            numbers@,
            t.0,
            t.1,
            t.2,
        ),
        match r {
            Ok(bytes) => spec_compile(program, numbers@) == Ok::<Seq<u8>, Seq<char>>(bytes@),
            Err(m) => spec_compile(program, numbers@) == Err::<Seq<u8>, Seq<char>>(m@),
        },
{
    let mut compiler = Compiler::new();
    proof {
        assert(compiler.function_code_parts@ =~= Seq::<Vec<Instr>>::empty());
        assert(parts_v(compiler.function_code_parts@) =~= Seq::<Seq<Instr>>::empty());
        assert(compiler.locals@ =~= Seq::<(String, u16)>::empty());
    }
    let mut fi: usize = 0;
    while fi < program.functions.len()
        invariant
            fi <= program.functions@.len(),
            compiler.wf(),
            !compiler.in_function,
            compiler.locals@.len() == 0,
            compiler.code@ == Seq::<Instr>::empty(),
            compiler.functions@.len() == fi,
            compiler.function_code_parts@.len() == fi,
            spec_compile_functions(
                Seq::empty(),
                Seq::empty(),
                Seq::empty(),
                Seq::empty(),
                program.functions,
                0,
                numbers@,
            ) == spec_compile_functions(
                compiler.pool(),
                compiler.function_names@,
                compiler.functions@,
                parts_v(compiler.function_code_parts@),
                program.functions,
                fi as int,
                numbers@,
            ),
            forall|j: int| 0 <= j < compiler.pool().len() ==> program_has_const(
                &program,
                numbers@,
                #[trigger] compiler.pool()[j],
            ),
            forall|k: int, v: ValueV| 0 <= k < fi && #[trigger] func_has_const(
                &program.functions@[k],
                numbers@,
                v,
            ) ==> pool_has(compiler.pool(), v),
            forall|i: int| 0 <= i < fi ==> {
                let f = #[trigger] compiler.functions@[i];
                &&& f.arity as nat == program.functions@[i].params@.len()
                &&& f.local_count as nat == func_local_names(&program.functions@[i]).len()
                &&& (f.name_const_idx as nat) < compiler.pool().len()
                &&& compiler.pool()[f.name_const_idx as int] == ValueV::Str(
                    program.functions@[i].name@,
                )
            },
            forall|i: int| 0 <= i < fi ==> {
                let part = #[trigger] compiler.function_code_parts@[i];
                part@.len() > 0 && jumps_below(part@, encode_list(part@).len())
            },
        decreases program.functions@.len() - fi,
    {
        let ghost mid = compiler;
        let step = compiler.compile_function(&program.functions[fi], numbers);
        proof {
            assert forall|j: int| 0 <= j < compiler.pool().len() implies program_has_const(
                &program,
                numbers@,
                #[trigger] compiler.pool()[j],
            ) by {
                if j >= mid.pool().len() {
                    assert(func_has_const(
                        &program.functions@[fi as int],
                        numbers@,
                        compiler.pool()[j],
                    ));
                    lemma_program_has_func(&program, numbers@, compiler.pool()[j], fi as int);
                } else {
                    assert(compiler.pool()[j] == mid.pool()[j]);
                }
            }
        }
        match step {
            Ok(()) => (),
            Err(m) => {
                return Err(m);
            },
        }
        proof {
            assert forall|k: int, v: ValueV| 0 <= k < fi + 1 && #[trigger] func_has_const(
                &program.functions@[k],
                numbers@,
                v,
            ) implies pool_has(compiler.pool(), v) by {
                if k < fi {
                    lemma_pool_has_extends(mid.pool(), compiler.pool(), v);
                }
            }
        }
        fi = fi + 1;
    }
    let ghost st_main = compiler;
    proof {
        assert(st_main.cstate() =~= (CState {
            pool: st_main.pool(),
            locals: Seq::empty(),
            code: Seq::empty(),
        }));
    }
    let step = compiler.compile_block(&program.main_statements, numbers);
    let ghost st_main_pool = compiler.pool();
    proof {
        assert forall|j: int| 0 <= j < compiler.pool().len() implies program_has_const(
            &program,
            numbers@,
            #[trigger] compiler.pool()[j],
        ) by {
            if j >= st_main.pool().len() {
                assert(block_has_const(program.main_statements, numbers@, compiler.pool()[j]));
            } else {
                assert(compiler.pool()[j] == st_main.pool()[j]);
            }
        }
    }
    match step {
        Ok(()) => (),
        Err(m) => {
            return Err(m);
        },
    }
    proof {
        assert(jumps_below(st_main.code@, encode_list(st_main.code@).len() + 1)) by {
            assert(st_main.code@.len() == 0);
        }
        assert(jumps_below(compiler.code@, encode_list(compiler.code@).len() + 1));
        lemma_stmt_jumps_simple(compiler.code@, compiler.code@.push(Instr::Halt));
        lemma_encode_split(compiler.code@, compiler.code@.push(Instr::Halt));
        lemma_encode_len_ge_count(
            compiler.code@.push(Instr::Halt).skip(compiler.code@.len() as int),
        );
        lemma_jumps_extend(
            compiler.code@,
            compiler.code@.push(Instr::Halt),
            encode_list(compiler.code@).len() + 1,
            encode_list(compiler.code@.push(Instr::Halt)).len(),
        );
    }
    compiler.code.push(Instr::Halt);
    let main_len = match byte_len(&compiler.code) {
        Some(x) => x,
        None => {
            return Err("code too large".to_owned());
        },
    };
    let mut all_instrs: Vec<Instr> = Vec::new();
    core::mem::swap(&mut all_instrs, &mut compiler.code);
    let mut base: u32 = main_len;
    let mut parts: Vec<Vec<Instr>> = Vec::new();
    core::mem::swap(&mut parts, &mut compiler.function_code_parts);
    let ghost parts0 = parts@;
    let ghost main_seq = all_instrs@;
    let ghost funcs0g = compiler.functions@;
    proof {
        assert(parts_v(compiler.function_code_parts@) =~= Seq::<Seq<Instr>>::empty());
    }
    let mut pi: usize = 0;
    while pi < parts.len()
        invariant
            pi <= parts0.len(),
            parts@ == parts0,
            parts0.len() == program.functions@.len(),
            compiler.wf(),
            compiler.functions@.len() == program.functions@.len(),
            forall|i: int| 0 <= i < parts0.len() ==> {
                let part = #[trigger] parts0[i];
                part@.len() > 0 && jumps_below(part@, encode_list(part@).len())
            },
            forall|i: int| 0 <= i < compiler.functions@.len() ==> {
                let f = #[trigger] compiler.functions@[i];
                &&& f.arity as nat == program.functions@[i].params@.len()
                &&& f.local_count as nat == func_local_names(&program.functions@[i]).len()
                &&& (f.name_const_idx as nat) < compiler.pool().len()
                &&& compiler.pool()[f.name_const_idx as int] == ValueV::Str(
                    program.functions@[i].name@,
                )
            },
            forall|i: int| 0 <= i < pi ==> (#[trigger] compiler.functions@[i].code_offset as nat)
                <= base as nat,
            base as nat == encode_list(all_instrs@).len(),
            jumps_below(all_instrs@, base as nat),
            compiler.pool() == st_main_pool,
            spec_link(main_seq, main_len, funcs0g, parts_v(parts0), 0) == spec_link(
                all_instrs@,
                base,
                compiler.functions@,
                parts_v(parts0),
                pi as int,
            ),
            forall|j: int| 0 <= j < compiler.pool().len() ==> program_has_const(
                &program,
                numbers@,
                #[trigger] compiler.pool()[j],
            ),
            forall|v: ValueV| #[trigger] program_has_const(&program, numbers@, v) ==> pool_has(
                compiler.pool(),
                v,
            ),
        decreases parts0.len() - pi,
    {
        proof {
            assert(parts_v(parts0)[pi as int] == parts0[pi as int]@);
        }
        let part_len = match byte_len(&parts[pi]) {
            Some(x) => x,
            None => {
                return Err("code too large".to_owned());
            },
        };
        if base > 0xFFFF_FFFF - part_len {
            return Err("code too large".to_owned());
        }
        let mut m = compiler.functions[pi];
        m.code_offset = base;
        compiler.functions[pi] = m;
        let ghost all0 = all_instrs@;
        let ghost partv = parts@[pi as int]@;
        let mut j: usize = 0;
        while j < parts[pi].len()
            invariant
                j <= partv.len(),
                parts@ == parts0,
                partv == parts0[pi as int]@,
                pi < parts0.len(),
                partv.len() > 0 && jumps_below(partv, encode_list(partv).len()),
                encode_list(partv).len() == part_len as nat,
                base as nat + part_len as nat <= 0xFFFF_FFFF,
                base as nat == encode_list(all0).len(),
                jumps_below(all0, base as nat),
                all_instrs@.len() == all0.len() + j,
                forall|k: int| 0 <= k < all0.len() ==> all_instrs@[k] == all0[k],
                encode_list(all_instrs@) == encode_list(all0) + encode_list(
                    all_instrs@.skip(all0.len() as int),
                ),
                encode_list(all_instrs@.skip(all0.len() as int)).len() == encode_list(
                    partv.take(j as int),
                ).len(),
                jumps_below(all_instrs@, base as nat + encode_list(partv).len()),
                all_instrs@ == all0 + spec_relocate(partv.take(j as int), base),
            decreases partv.len() - j,
        {
            let ins = parts[pi][j];
            let relocated = match ins {
                Instr::Jump(t) => Instr::Jump(t + base),
                Instr::JumpIfFalse(t) => Instr::JumpIfFalse(t + base),
                other => other,
            };
            proof {
                assert(partv.take(j as int + 1) =~= partv.take(j as int).push(
                    partv[j as int],
                ));
                lemma_encode_list_push(partv.take(j as int), partv[j as int]);
                lemma_encode_list_push(all_instrs@, relocated);
                assert(encode_instr(relocated).len() == encode_instr(partv[j as int]).len());
                assert(all_instrs@.push(relocated).skip(all0.len() as int) =~= all_instrs@.skip(
                    all0.len() as int,
                ).push(relocated));
                lemma_encode_list_push(all_instrs@.skip(all0.len() as int), relocated);
                assert(encode_list(partv.take(j as int)).len() <= encode_list(partv).len()) by {
                    assert(seq_extends(partv.take(j as int), partv));
                    lemma_encode_split(partv.take(j as int), partv);
                }
            }
            proof {
                assert(relocated == reloc_instr(partv[j as int], base));
                assert(all0 + spec_relocate(partv.take(j as int + 1), base) =~= (all0
                    + spec_relocate(partv.take(j as int), base)).push(relocated));
            }
            all_instrs.push(relocated);
            j = j + 1;
        }
        proof {
            assert(partv.take(partv.len() as int) =~= partv);
            assert(pi < compiler.functions@.len());
        }
        base = base + part_len;
        pi = pi + 1;
    }
    let code_bytes = assemble(&all_instrs);
    if code_bytes.len() > 0xFFFF_FFFF {
        return Err("code too large".to_owned());
    }
    let out = match compiler.write_bytecode(&code_bytes) {
        Ok(b) => b,
        Err(m) => {
            return Err(m);
        },
    };
    proof {
        let t = (compiler.pool(), compiler.functions@, code_bytes@);
        assert(good_artifact(out@, program, numbers@, t.0, t.1, t.2)) by {
            assert(encode_list(all_instrs@) == code_bytes@ && jumps_below(
                all_instrs@,
                code_bytes@.len(),
            ));
            assert(code_bytes@.subrange(0, code_bytes@.len() as int) =~= encode_list(
                all_instrs@,
            ));
            lemma_encode_walk(code_bytes@, 0, all_instrs@);
        }
    }
    Ok(out)
}


// ---------------------------------------------------------------------------
// Reload: parsing a serialized artifact gives back what was written
// ---------------------------------------------------------------------------

#[verifier::rlimit(100)]
proof fn lemma_consts_roundtrip(b: Seq<u8>, pos: nat, pool: Seq<ValueV>)
    requires
        pool_strings_fit(pool),
        pos + spec_serialize_consts(pool).len() <= b.len(),
        b.subrange(pos as int, pos as int + spec_serialize_consts(pool).len() as int)
            == spec_serialize_consts(pool),
    ensures
        crate::vm::spec_parse_consts(b, pos, pool.len()) == Ok::<(Seq<ValueV>, nat), Seq<char>>(
            (pool, pos + spec_serialize_consts(pool).len()),
        ),
    decreases pool.len(),
{
    broadcast use vstd::utf8::group_utf8_lib;

    let sc = spec_serialize_consts(pool);
    if pool.len() == 0 {
        assert(pool =~= Seq::<ValueV>::empty());
    } else {
        let rest = pool.drop_first();
        let restsc = spec_serialize_consts(rest);
        assert forall|i: int| 0 <= i < sc.len() implies #[trigger] b[pos as int + i] == sc[i] by {
            assert(b.subrange(pos as int, pos as int + sc.len() as int)[i] == b[pos as int + i]);
        }
        match pool[0] {
            ValueV::Num(bits) => {
                let e = seq![1u8] + u64_le_bytes(bits);
                assert(sc == e + restsc);
                assert(e.len() == 9);
                assert(sc[0] == e[0]);
                assert(b[pos as int + 0] == sc[0]);
                assert(sc[1] == e[1]);
                assert(b[pos as int + 1] == sc[1]);
                assert(sc[2] == e[2]);
                assert(b[pos as int + 2] == sc[2]);
                assert(sc[3] == e[3]);
                assert(b[pos as int + 3] == sc[3]);
                assert(sc[4] == e[4]);
                assert(b[pos as int + 4] == sc[4]);
                assert(sc[5] == e[5]);
                assert(b[pos as int + 5] == sc[5]);
                assert(sc[6] == e[6]);
                assert(b[pos as int + 6] == sc[6]);
                assert(sc[7] == e[7]);
                assert(b[pos as int + 7] == sc[7]);
                assert(sc[8] == e[8]);
                assert(b[pos as int + 8] == sc[8]);
                assert(e[0] == 1u8);
                assert(e[1] == crate::wire::u64_byte(bits, 0));
                assert(e[2] == crate::wire::u64_byte(bits, 1));
                assert(e[3] == crate::wire::u64_byte(bits, 2));
                assert(e[4] == crate::wire::u64_byte(bits, 3));
                assert(e[5] == crate::wire::u64_byte(bits, 4));
                assert(e[6] == crate::wire::u64_byte(bits, 5));
                assert(e[7] == crate::wire::u64_byte(bits, 6));
                assert(e[8] == crate::wire::u64_byte(bits, 7));
                crate::wire::lemma_u64_le_roundtrip(bits);
                assert(crate::wire::u64_from_le(
                    b[pos as int + 1], b[pos as int + 2], b[pos as int + 3], b[pos as int + 4],
                    b[pos as int + 5], b[pos as int + 6], b[pos as int + 7], b[pos as int + 8],
                ) == bits);
                assert(b[pos as int] == 1u8);
                assert(b.subrange(pos as int + 9, pos as int + 9 + restsc.len() as int)
                    =~= restsc) by {
                    assert forall|i: int| 0 <= i < restsc.len() implies b.subrange(
                        pos as int + 9,
                        pos as int + 9 + restsc.len() as int,
                    )[i] == restsc[i] by {
                        assert(b[pos as int + (9 + i)] == sc[9 + i]);
                        assert(sc[9 + i] == restsc[i]);
                    }
                }
                lemma_consts_roundtrip(b, pos + 9, rest);
                assert(seq![ValueV::Num(bits)] + rest =~= pool);
            },
            ValueV::Str(t) => {
                let bytes = vstd::utf8::encode_utf8(t);
                let blen = bytes.len();
                assert(blen <= 0xFFFF_FFFF);
                let e = seq![2u8] + u32_le_bytes(blen as u32) + bytes;
                assert(sc == e + restsc);
                assert(e.len() == 5 + blen);
                assert(sc[0] == e[0]);
                assert(b[pos as int + 0] == sc[0]);
                assert(sc[1] == e[1]);
                assert(b[pos as int + 1] == sc[1]);
                assert(sc[2] == e[2]);
                assert(b[pos as int + 2] == sc[2]);
                assert(sc[3] == e[3]);
                assert(b[pos as int + 3] == sc[3]);
                assert(sc[4] == e[4]);
                assert(b[pos as int + 4] == sc[4]);
                assert(e[0] == 2u8);
                assert(e[1] == crate::wire::u32_byte(blen as u32, 0));
                assert(e[2] == crate::wire::u32_byte(blen as u32, 1));
                assert(e[3] == crate::wire::u32_byte(blen as u32, 2));
                assert(e[4] == crate::wire::u32_byte(blen as u32, 3));
                crate::wire::lemma_u32_le_roundtrip(blen as u32);
                assert(crate::wire::u32_from_le(
                    b[pos as int + 1], b[pos as int + 2], b[pos as int + 3], b[pos as int + 4],
                ) == blen as u32);
                assert(b[pos as int] == 2u8);
                assert(b.subrange(pos as int + 5, pos as int + 5 + blen as int) =~= bytes) by {
                    assert forall|i: int| 0 <= i < blen implies b.subrange(
                        pos as int + 5,
                        pos as int + 5 + blen as int,
                    )[i] == bytes[i] by {
                        assert(b[pos as int + (5 + i)] == sc[5 + i]);
                        assert(sc[5 + i] == e[5 + i]);
                        assert(e[5 + i] == bytes[i]);
                    }
                }
                assert(vstd::utf8::valid_utf8(bytes));
                assert(vstd::utf8::decode_utf8(bytes) == t);
                assert(b.subrange(
                    pos as int + 5 + blen as int,
                    pos as int + 5 + blen as int + restsc.len() as int,
                ) =~= restsc) by {
                    assert forall|i: int| 0 <= i < restsc.len() implies b.subrange(
                        pos as int + 5 + blen as int,
                        pos as int + 5 + blen as int + restsc.len() as int,
                    )[i] == restsc[i] by {
                        assert(b[pos as int + (5 + blen + i)] == sc[5 + blen + i]);
                        assert(sc[5 + blen + i] == restsc[i]);
                    }
                }
                lemma_consts_roundtrip(b, pos + 5 + blen, rest);
                assert(seq![ValueV::Str(t)] + rest =~= pool);
            },
        }
    }
}

#[verifier::rlimit(100)]
proof fn lemma_funcs_roundtrip(b: Seq<u8>, pos: nat, funcs: Seq<FuncMeta>, n_consts: nat)
    requires
        pos + spec_serialize_funcs(funcs).len() <= b.len(),
        b.subrange(pos as int, pos as int + spec_serialize_funcs(funcs).len() as int)
            == spec_serialize_funcs(funcs),
        forall|i: int| 0 <= i < funcs.len() ==> (#[trigger] funcs[i].name_const_idx as nat)
            < n_consts,
        pos + spec_serialize_funcs(funcs).len() + 2 <= b.len(),
    ensures
        crate::vm::spec_parse_funcs(b, pos, funcs.len(), n_consts) == Ok::<
            (Seq<FuncMeta>, nat),
            Seq<char>,
        >((funcs, pos + spec_serialize_funcs(funcs).len())),
    decreases funcs.len(),
{
    let sf = spec_serialize_funcs(funcs);
    if funcs.len() == 0 {
        assert(funcs =~= Seq::<FuncMeta>::empty());
    } else {
        let f = funcs[0];
        let rest = funcs.drop_first();
        let restsf = spec_serialize_funcs(rest);
        let e = u32_le_bytes(f.name_const_idx) + u16_le_bytes(f.arity) + u16_le_bytes(
            f.local_count,
        ) + u32_le_bytes(f.code_offset);
        assert(sf == e + restsf);
        assert(e.len() == 12);
        assert forall|i: int| 0 <= i < sf.len() implies #[trigger] b[pos as int + i] == sf[i] by {
            assert(b.subrange(pos as int, pos as int + sf.len() as int)[i] == b[pos as int + i]);
        }
        assert(b[pos as int + 0] == sf[0]);
        assert(b[pos as int + 1] == sf[1]);
        assert(b[pos as int + 2] == sf[2]);
        assert(b[pos as int + 3] == sf[3]);
        assert(b[pos as int + 4] == sf[4]);
        assert(b[pos as int + 5] == sf[5]);
        assert(b[pos as int + 6] == sf[6]);
        assert(b[pos as int + 7] == sf[7]);
        assert(b[pos as int + 8] == sf[8]);
        assert(b[pos as int + 9] == sf[9]);
        assert(b[pos as int + 10] == sf[10]);
        assert(b[pos as int + 11] == sf[11]);
        assert(sf[0] == e[0] && sf[1] == e[1] && sf[2] == e[2] && sf[3] == e[3]);
        assert(sf[4] == e[4] && sf[5] == e[5] && sf[6] == e[6] && sf[7] == e[7]);
        assert(sf[8] == e[8] && sf[9] == e[9] && sf[10] == e[10] && sf[11] == e[11]);
        assert(e[0] == crate::wire::u32_byte(f.name_const_idx, 0));
        assert(e[1] == crate::wire::u32_byte(f.name_const_idx, 1));
        assert(e[2] == crate::wire::u32_byte(f.name_const_idx, 2));
        assert(e[3] == crate::wire::u32_byte(f.name_const_idx, 3));
        assert(e[4] == crate::wire::u16_lo(f.arity));
        assert(e[5] == crate::wire::u16_hi(f.arity));
        assert(e[6] == crate::wire::u16_lo(f.local_count));
        assert(e[7] == crate::wire::u16_hi(f.local_count));
        assert(e[8] == crate::wire::u32_byte(f.code_offset, 0));
        assert(e[9] == crate::wire::u32_byte(f.code_offset, 1));
        assert(e[10] == crate::wire::u32_byte(f.code_offset, 2));
        assert(e[11] == crate::wire::u32_byte(f.code_offset, 3));
        crate::wire::lemma_u32_le_roundtrip(f.name_const_idx);
        crate::wire::lemma_u16_le_roundtrip(f.arity);
        crate::wire::lemma_u16_le_roundtrip(f.local_count);
        crate::wire::lemma_u32_le_roundtrip(f.code_offset);
        assert(crate::wire::u32_from_le(
            b[pos as int + 0], b[pos as int + 1], b[pos as int + 2], b[pos as int + 3],
        ) == f.name_const_idx);
        assert(crate::wire::u16_from_le(b[pos as int + 4], b[pos as int + 5]) == f.arity);
        assert(crate::wire::u16_from_le(b[pos as int + 6], b[pos as int + 7]) == f.local_count);
        assert(crate::wire::u32_from_le(
            b[pos as int + 8], b[pos as int + 9], b[pos as int + 10], b[pos as int + 11],
        ) == f.code_offset);
        assert(b.subrange(pos as int + 12, pos as int + 12 + restsf.len() as int) =~= restsf)
            by {
            assert forall|i: int| 0 <= i < restsf.len() implies b.subrange(
                pos as int + 12,
                pos as int + 12 + restsf.len() as int,
            )[i] == restsf[i] by {
                assert(b[pos as int + (12 + i)] == sf[12 + i]);
                assert(sf[12 + i] == restsf[i]);
            }
        }
        lemma_funcs_roundtrip(b, pos + 12, rest, n_consts);
        assert(seq![f] + rest =~= funcs);
    }
}

/// Loading what the compiler wrote yields exactly the pool, table and code
/// that were written: the artifact codec round-trips.
#[verifier::rlimit(100)]
pub proof fn lemma_artifact_roundtrip(pool: Seq<ValueV>, funcs: Seq<FuncMeta>, code: Seq<u8>)
    requires
        pool.len() <= 0xFFFF_FFFF,
        funcs.len() <= 0xFFFF_FFFF,
        code.len() <= 0xFFFF_FFFF,
        pool_strings_fit(pool),
        forall|i: int| 0 <= i < funcs.len() ==> (#[trigger] funcs[i].name_const_idx as nat)
            < pool.len(),
    ensures
        crate::vm::spec_parse_artifact(spec_serialize(pool, funcs, code)) == Ok::<
            (Seq<ValueV>, Seq<FuncMeta>, Seq<u8>),
            Seq<char>,
        >((pool, funcs, code)),
{
    let b = spec_serialize(pool, funcs, code);
    let sc = spec_serialize_consts(pool);
    let sf = spec_serialize_funcs(funcs);
    assert(b.len() == 12 + sc.len() + 4 + sf.len() + 4 + code.len());
    assert(b[0] == 66 && b[1] == 82 && b[2] == 66 && b[3] == 67);
    crate::wire::lemma_u16_le_roundtrip(4);
    crate::wire::lemma_u16_le_roundtrip(0);
    crate::wire::lemma_u32_le_roundtrip(pool.len() as u32);
    crate::wire::lemma_u32_le_roundtrip(funcs.len() as u32);
    crate::wire::lemma_u32_le_roundtrip(code.len() as u32);
    assert(b[4] == crate::wire::u16_lo(4) && b[5] == crate::wire::u16_hi(4));
    assert(crate::wire::u16_from_le(b[4], b[5]) == 4);
    assert(crate::wire::u32_from_le(b[8], b[9], b[10], b[11]) == pool.len() as u32);
    assert(b.subrange(12, 12 + sc.len() as int) =~= sc);
    lemma_consts_roundtrip(b, 12, pool);
    let p = 12 + sc.len();
    assert(crate::wire::u32_from_le(
        b[p as int], b[p as int + 1], b[p as int + 2], b[p as int + 3],
    ) == funcs.len() as u32);
    assert(b.subrange(p as int + 4, p as int + 4 + sf.len() as int) =~= sf);
    lemma_funcs_roundtrip(b, p + 4, funcs, pool.len());
    let q = p + 4 + sf.len();
    assert(crate::wire::u32_from_le(
        b[q as int], b[q as int + 1], b[q as int + 2], b[q as int + 3],
    ) == code.len() as u32);
    assert(b.subrange(q as int + 4, q as int + 4 + code.len() as int) =~= code);
}


// ---------------------------------------------------------------------------
// What the driver must bind
// ---------------------------------------------------------------------------

/// The spellings of the numeric literal tokens, in order.
pub open spec fn spec_num_texts(toks: Seq<crate::lexer::Token>) -> Seq<Seq<char>>
    decreases toks.len(),
{
    if toks.len() == 0 {
        Seq::empty()
    } else {
        (match toks[0] {
            crate::lexer::Token::Num(t) => seq![t@],
            _ => Seq::empty(),
        }) + spec_num_texts(toks.drop_first())
    }
}

/// Collects the numeric literal spellings of a token stream, so a driver
/// can bind each to its double bit pattern before compiling.
#[verifier::loop_isolation(false)]
pub fn number_texts(tokens: &Vec<crate::lexer::Token>) -> (r: Vec<String>)
    ensures
        r@.map_values(|t: String| t@) == spec_num_texts(tokens@),
{
    let mut out: Vec<String> = Vec::new();
    let mut i: usize = 0;
    proof {
        assert(tokens@.take(0) =~= Seq::<crate::lexer::Token>::empty());
        assert(out@.map_values(|t: String| t@) =~= spec_num_texts(tokens@.take(0)));
    }
    while i < tokens.len()
        invariant
            i <= tokens@.len(),
            out@.map_values(|t: String| t@) == spec_num_texts(tokens@.take(i as int)),
        decreases tokens@.len() - i,
    {
        proof {
            lemma_num_texts_push(tokens@.take(i as int), tokens@[i as int]);
            assert(tokens@.take(i as int + 1) =~= tokens@.take(i as int).push(
                tokens@[i as int],
            ));
        }
        let ghost o0 = out@;
        match &tokens[i] {
            crate::lexer::Token::Num(t) => {
                out.push(t.clone());
                proof {
                    assert(out@.map_values(|t: String| t@) =~= o0.map_values(|t: String| t@)
                        + seq![out@.last()@]);
                }
            },
            _ => {
                proof {
                    assert(out@.map_values(|t: String| t@) + Seq::<Seq<char>>::empty()
                        =~= out@.map_values(|t: String| t@));
                }
            },
        }
        i = i + 1;
    }
    proof {
        assert(tokens@.take(tokens@.len() as int) =~= tokens@);
    }
    out
}

proof fn lemma_num_texts_push(toks: Seq<crate::lexer::Token>, t: crate::lexer::Token)
    ensures
        spec_num_texts(toks.push(t)) == spec_num_texts(toks) + (match t {
            crate::lexer::Token::Num(x) => seq![x@],
            _ => Seq::<Seq<char>>::empty(),
        }),
    decreases toks.len(),
{
    let p = toks.push(t);
    let e = (match t {
        crate::lexer::Token::Num(x) => seq![x@],
        _ => Seq::<Seq<char>>::empty(),
    });
    if toks.len() == 0 {
        assert(p[0] == t);
        assert(p.drop_first() =~= Seq::<crate::lexer::Token>::empty());
        assert(spec_num_texts(Seq::<crate::lexer::Token>::empty())
            == Seq::<Seq<char>>::empty());
        assert(spec_num_texts(p) == e + Seq::<Seq<char>>::empty());
        assert(e + Seq::<Seq<char>>::empty() =~= Seq::<Seq<char>>::empty() + e);
        assert(spec_num_texts(toks) == Seq::<Seq<char>>::empty());
    } else {
        assert(p[0] == toks[0]);
        assert(p.drop_first() =~= toks.drop_first().push(t));
        lemma_num_texts_push(toks.drop_first(), t);
        assert(spec_num_texts(p) =~= spec_num_texts(toks) + e);
    }
}


// ---------------------------------------------------------------------------
// The law of local allocation
// ---------------------------------------------------------------------------

proof fn lemma_stmt_new_locals_grows(ns: Seq<Seq<char>>, s: Statement)
    ensures
        stmt_new_locals(ns, s).len() >= ns.len(),
    decreases s, 0nat,
{
    match s {
        Statement::If { then_block, else_block, .. } => {
            lemma_stmts_new_locals_grows(ns, then_block, 0);
            match else_block {
                Some(eb) => {
                    lemma_stmts_new_locals_grows(stmts_new_locals(ns, then_block, 0), eb, 0);
                },
                None => {},
            }
        },
        Statement::While { body, .. } => {
            lemma_stmts_new_locals_grows(ns, body, 0);
        },
        _ => {},
    }
}

proof fn lemma_stmts_new_locals_grows(ns: Seq<Seq<char>>, stmts: Vec<Statement>, i: int)
    ensures
        stmts_new_locals(ns, stmts, i).len() >= ns.len(),
    decreases stmts, stmts@.len() - i, 1nat,
{
    if 0 <= i < stmts@.len() {
        lemma_stmt_new_locals_grows(ns, stmts@[i]);
        lemma_stmts_new_locals_grows(stmt_new_locals(ns, stmts@[i]), stmts, i + 1);
    }
}

proof fn lemma_params_new_locals_distinct(ns: Seq<Seq<char>>, params: Vec<String>, i: int)
    requires
        0 <= i <= params@.len(),
        forall|a: int, b: int| 0 <= a < b < params@.len() ==> params@[a]@ != params@[b]@,
        forall|j: int| i <= j < params@.len() ==> !ns.contains(#[trigger] params@[j]@),
    ensures
        params_new_locals(ns, params, i).len() == ns.len() + (params@.len() - i),
    decreases params@.len() - i,
{
    if i < params@.len() {
        assert(!ns.contains(params@[i]@));
        let ns2 = ns.push(params@[i]@);
        assert(insert_name(ns, params@[i]@) == ns2);
        assert forall|j: int| i + 1 <= j < params@.len() implies !ns2.contains(
            #[trigger] params@[j]@,
        ) by {
            if ns2.contains(params@[j]@) {
                let k = choose|k: int| 0 <= k < ns2.len() && ns2[k] == params@[j]@;
                if k < ns.len() {
                    assert(ns.contains(params@[j]@));
                } else {
                    assert(params@[i]@ == params@[j]@);
                }
            }
        }
        lemma_params_new_locals_distinct(ns2, params, i + 1);
    }
}

/// The law of local allocation: a function's distinct local names are its
/// parameters followed by the names its body assigns, so with pairwise
/// distinct parameter names the local count is at least the arity. (When a
/// parameter spelling repeats, the repeats share one slot, so only the
/// distinct spellings are counted.)
pub proof fn lemma_local_count_ge_arity(f: &Function)
    requires
        forall|a: int, b: int| 0 <= a < b < f.params@.len() ==> f.params@[a]@ != f.params@[b]@,
    ensures
        func_local_names(f).len() >= f.params@.len(),
{
    assert forall|j: int| 0 <= j < f.params@.len() implies !Seq::<Seq<char>>::empty().contains(
        #[trigger] f.params@[j]@,
    ) by {
        if Seq::<Seq<char>>::empty().contains(f.params@[j]@) {
            let k = choose|k: int| 0 <= k < Seq::<Seq<char>>::empty().len()
                && Seq::<Seq<char>>::empty()[k] == f.params@[j]@;
        }
    }
    lemma_params_new_locals_distinct(Seq::empty(), f.params, 0);
    lemma_stmts_new_locals_grows(params_new_locals(Seq::empty(), f.params, 0), f.body, 0);
}


// ---------------------------------------------------------------------------
// The law of jump validity
// ---------------------------------------------------------------------------

/// Walking the code section opcode by opcode from `i`: every instruction
/// is complete, and every jump operand lands strictly inside the section.
pub open spec fn walk_ok(code: Seq<u8>, i: nat) -> bool
    decreases code.len() - i,
{
    if i == code.len() {
        true
    } else if i > code.len() {
        false
    } else {
        let op = code[i as int];
        if op == 0x01 || (0x05 <= op && op <= 0x0a) || op == 0x0e || op == 0x11 || op == 0x12 {
            walk_ok(code, i + 1)
        } else if op == 0x03 || op == 0x04 {
            i + 2 <= code.len() && walk_ok(code, i + 2)
        } else if op == 0x0f || op == 0x10 {
            i + 3 <= code.len() && walk_ok(code, i + 3)
        } else if op == 0x02 || op == 0x0d {
            i + 5 <= code.len() && walk_ok(code, i + 5)
        } else if op == 0x0b || op == 0x0c {
            i + 5 <= code.len() && (crate::wire::u32_from_le(
                code[i as int + 1],
                code[i as int + 2],
                code[i as int + 3],
                code[i as int + 4],
            ) as nat) < code.len() && walk_ok(code, i + 5)
        } else {
            false
        }
    }
}

/// The encoding of an instruction sequence whose jumps are bounded by the
/// full code length walks cleanly to the end.
#[verifier::rlimit(100)]
pub proof fn lemma_encode_walk(full: Seq<u8>, start: nat, instrs: Seq<Instr>)
    requires
        start <= full.len(),
        full.subrange(start as int, full.len() as int) == encode_list(instrs),
        jumps_below(instrs, full.len()),
    ensures
        walk_ok(full, start),
    decreases instrs.len(),
{
    let enc = encode_list(instrs);
    assert(enc.len() == full.len() - start);
    if instrs.len() == 0 {
        assert(start == full.len());
    } else {
        let head = instrs[0];
        let e = encode_instr(head);
        let rest = instrs.drop_first();
        let restenc = encode_list(rest);
        assert(enc == e + restenc);
        assert forall|k: int| 0 <= k < enc.len() implies #[trigger] full[start as int + k] == enc[k] by {
            assert(full.subrange(start as int, full.len() as int)[k] == full[start as int + k]);
        }
        assert(jumps_below(rest, full.len())) by {
            assert forall|i: int| 0 <= i < rest.len() implies match #[trigger] rest[i] {
                Instr::Jump(t) => (t as nat) < full.len(),
                Instr::JumpIfFalse(t) => (t as nat) < full.len(),
                _ => true,
            } by {
                assert(rest[i] == instrs[i + 1]);
            }
        }
        let nstart = start + e.len();
        assert(full.subrange(nstart as int, full.len() as int) =~= restenc) by {
            assert forall|k: int| 0 <= k < restenc.len() implies full.subrange(
                nstart as int,
                full.len() as int,
            )[k] == restenc[k] by {
                assert(full[start as int + (e.len() + k)] == enc[e.len() + k]);
                assert(enc[e.len() + k] == restenc[k]);
            }
        }
        lemma_encode_walk(full, nstart, rest);
        match head {
            Instr::Jump(t) => {
                assert(full[start as int + 0] == 0x0bu8);
                assert(e[1] == crate::wire::u32_byte(t, 0));
                assert(e[2] == crate::wire::u32_byte(t, 1));
                assert(e[3] == crate::wire::u32_byte(t, 2));
                assert(e[4] == crate::wire::u32_byte(t, 3));
                assert(full[start as int + 1] == e[1] && full[start as int + 2] == e[2] && full[start as int + 3]
                    == e[3] && full[start as int + 4] == e[4]);
                crate::wire::lemma_u32_le_roundtrip(t);
                assert(crate::wire::u32_from_le(
                    full[start as int + 1],
                    full[start as int + 2],
                    full[start as int + 3],
                    full[start as int + 4],
                ) == t);
                assert((t as nat) < full.len());
            },
            Instr::JumpIfFalse(t) => {
                assert(full[start as int + 0] == 0x0cu8);
                assert(e[1] == crate::wire::u32_byte(t, 0));
                assert(e[2] == crate::wire::u32_byte(t, 1));
                assert(e[3] == crate::wire::u32_byte(t, 2));
                assert(e[4] == crate::wire::u32_byte(t, 3));
                assert(full[start as int + 1] == e[1] && full[start as int + 2] == e[2] && full[start as int + 3]
                    == e[3] && full[start as int + 4] == e[4]);
                crate::wire::lemma_u32_le_roundtrip(t);
                assert(crate::wire::u32_from_le(
                    full[start as int + 1],
                    full[start as int + 2],
                    full[start as int + 3],
                    full[start as int + 4],
                ) == t);
                assert((t as nat) < full.len());
            },
            _ => {
                assert(full[start as int + 0] == e[0]);
            },
        }
        assert(walk_ok(full, start));
    }
}


/// The round trip of compilation: an artifact with the guarantees of
/// [`good_artifact`] loads back to exactly the pool, function table and
/// code section it serializes — so after compile and reload, the pool
/// holds exactly the program's distinct constant values, with no
/// duplicates.
pub proof fn lemma_good_artifact_reloads(
    bytes: Seq<u8>,
    program: Program,
    nums: Seq<(String, u64)>,
    pool: Seq<ValueV>,
    funcs: Seq<FuncMeta>,
    code: Seq<u8>,
)
    requires
        good_artifact(bytes, program, nums, pool, funcs, code),
    ensures
        crate::vm::spec_parse_artifact(bytes) == Ok::<
            (Seq<ValueV>, Seq<FuncMeta>, Seq<u8>),
            Seq<char>,
        >((pool, funcs, code)),
        pool_distinct(pool),
        forall|j: int| 0 <= j < pool.len() ==> program_has_const(
            &program,
            nums,
            #[trigger] pool[j],
        ),
        forall|v: ValueV| #[trigger] program_has_const(&program, nums, v) ==> pool_has(pool, v),
{
    assert forall|i: int| 0 <= i < funcs.len() implies (#[trigger] funcs[i].name_const_idx
        as nat) < pool.len() by {
        assert((funcs[i].name_const_idx as nat) < pool.len());
    }
    lemma_artifact_roundtrip(pool, funcs, code);
}


// ---------------------------------------------------------------------------
// The lowering, as a function
// ---------------------------------------------------------------------------

/// The compiler state a piece of code generation threads: the constant
/// pool, the local slots of the function being compiled, and the
/// instruction buffer being filled.
#[verifier::ext_equal]
pub struct CState {
    pub pool: Seq<ValueV>,
    pub locals: Seq<(String, u16)>,
    pub code: Seq<Instr>,
}

/// First pool index holding `v`, scanning from `i`.
pub open spec fn pool_find(pool: Seq<ValueV>, v: ValueV, i: int) -> Option<int>
    decreases pool.len() - i,
{
    if i < 0 || i >= pool.len() {
        None
    } else if pool[i] == v {
        Some(i)
    } else {
        pool_find(pool, v, i + 1)
    }
}

/// Interning: reuse the first equal entry, else append — refusing a pool
/// that would outgrow its 32-bit indices.
pub open spec fn spec_intern(pool: Seq<ValueV>, v: ValueV) -> Result<(Seq<ValueV>, u32), Seq<char>> {
    match pool_find(pool, v, 0) {
        Some(i) => Ok((pool, i as u32)),
        None => if pool.len() >= 0xFFFF_FFFF {
            Err("too many constants"@)
        } else {
            Ok((pool.push(v), pool.len() as u32))
        },
    }
}

/// First position in the declared-function list whose name reads `n`.
pub open spec fn fname_find(fnames: Seq<String>, n: Seq<char>, i: int) -> Option<int>
    decreases fnames.len() - i,
{
    if i < 0 || i >= fnames.len() {
        None
    } else if fnames[i]@ == n {
        Some(i)
    } else {
        fname_find(fnames, n, i + 1)
    }
}

/// First local slot entry whose name reads `n`.
pub open spec fn local_pos(locals: Seq<(String, u16)>, n: Seq<char>, i: int) -> Option<int>
    decreases locals.len() - i,
{
    if i < 0 || i >= locals.len() {
        None
    } else if locals[i].0@ == n {
        Some(i)
    } else {
        local_pos(locals, n, i + 1)
    }
}

/// The instruction of a binary operator.
pub open spec fn binop_instr(op: BinaryOp) -> Instr {
    match op {
        BinaryOp::Add => Instr::Add,
        BinaryOp::Subtract => Instr::Sub,
        BinaryOp::Multiply => Instr::Mul,
        BinaryOp::Divide => Instr::Div,
    }
}

/// The load of a variable: a local slot if the name is bound, else a
/// global slot named by a braincell.
pub open spec fn spec_emit_load(st: CState, name: String) -> Result<CState, Seq<char>> {
    match spec_local_lookup(st.locals, name@) {
        Some(ix) => Ok(CState { code: st.code.push(Instr::LoadLocal(ix)), ..st }),
        None => match spec_braincell_index(name@) {
            Some(g) => Ok(CState { code: st.code.push(Instr::LoadGlobal(g)), ..st }),
            None => Err("unknown braincell: "@ + name@),
        },
    }
}

/// The store of a variable: in a function always a local slot, allocating
/// the next slot on a first assignment; in the main block a braincell.
pub open spec fn spec_emit_store(st: CState, name: String, in_function: bool) -> Result<
    CState,
    Seq<char>,
> {
    if in_function {
        match spec_local_lookup(st.locals, name@) {
            Some(ix) => Ok(CState { code: st.code.push(Instr::StoreLocal(ix)), ..st }),
            None => if st.locals.len() >= 0xFFFF {
                Err("too many locals"@)
            } else {
                Ok(
                    CState {
                        locals: st.locals.push((name, st.locals.len() as u16)),
                        code: st.code.push(Instr::StoreLocal(st.locals.len() as u16)),
                        ..st
                    },
                )
            },
        }
    } else {
        match spec_braincell_index(name@) {
            Some(g) => Ok(CState { code: st.code.push(Instr::StoreGlobal(g)), ..st }),
            None => Err("unknown braincell: "@ + name@),
        }
    }
}

/// The code of one expression: instructions that leave its value on the
/// stack, with every literal interned.
pub open spec fn spec_compile_expr(
    st: CState,
    e: Expr,
    nums: Seq<(String, u64)>,
    fnames: Seq<String>,
) -> Result<CState, Seq<char>>
    decreases e, 0nat,
{
    match e {
        Expr::Num(t) => (match spec_num_lookup(nums, t@) {
            None => Err("unresolved numeric literal"@),
            Some(bits) => match spec_intern(st.pool, ValueV::Num(bits)) {
                Err(m) => Err(m),
                Ok((p, idx)) => Ok(
                    CState { pool: p, code: st.code.push(Instr::LoadConst(idx)), ..st },
                ),
            },
        }),
        Expr::Str(t) => (match spec_intern(st.pool, ValueV::Str(t@)) {
            Err(m) => Err(m),
            Ok((p, idx)) => Ok(CState { pool: p, code: st.code.push(Instr::LoadConst(idx)), ..st }),
        }),
        Expr::Variable(n) => spec_emit_load(st, n),
        Expr::Binary { op, left, right } => (match spec_compile_expr(st, *left, nums, fnames) {
            Err(m) => Err(m),
            Ok(st1) => match spec_compile_expr(st1, *right, nums, fnames) {
                Err(m) => Err(m),
                Ok(st2) => Ok(CState { code: st2.code.push(binop_instr(op)), ..st2 }),
            },
        }),
        Expr::FunctionCall { name, arg } => (if name@ == "TOUCHY"@ {
            Ok(CState { code: st.code.push(Instr::Input), ..st })
        } else if name@ == "TRANSFORM"@ {
            match arg {
                Some(a) => match spec_compile_expr(st, *a, nums, fnames) {
                    Err(m) => Err(m),
                    Ok(st1) => Ok(CState { code: st1.code.push(Instr::Call(0)), ..st1 }),
                },
                None => Err("TRANSFORM requires argument"@),
            }
        } else if name@ == "RIZZED"@ {
            match arg {
                Some(a) => match spec_compile_expr(st, *a, nums, fnames) {
                    Err(m) => Err(m),
                    Ok(st1) => Ok(CState { code: st1.code.push(Instr::Call(1)), ..st1 }),
                },
                None => Err("RIZZED requires argument"@),
            }
        } else {
            Err("Unknown function: "@ + name@)
        }),
        Expr::UserFunctionCall { name, args } => (match spec_compile_args(
            st,
            args,
            0,
            nums,
            fnames,
        ) {
            Err(m) => Err(m),
            Ok(st1) => match fname_find(fnames, name@, 0) {
                None => Err("undefined function: "@ + name@),
                Some(pos) => Ok(
                    CState { code: st1.code.push(Instr::Call((2 + pos) as u32)), ..st1 },
                ),
            },
        }),
    }
}

pub open spec fn spec_compile_args(
    st: CState,
    args: Vec<Expr>,
    i: int,
    nums: Seq<(String, u64)>,
    fnames: Seq<String>,
) -> Result<CState, Seq<char>>
    decreases args, args@.len() - i, 1nat,
{
    if i < 0 || i >= args@.len() {
        Ok(st)
    } else {
        match spec_compile_expr(st, args@[i], nums, fnames) {
            Err(m) => Err(m),
            Ok(st1) => spec_compile_args(st1, args, i + 1, nums, fnames),
        }
    }
}

/// An assignment: the expression's code followed by the store.
pub open spec fn spec_assign(
    st: CState,
    name: String,
    e: Expr,
    nums: Seq<(String, u64)>,
    fnames: Seq<String>,
    in_function: bool,
) -> Result<CState, Seq<char>>
    decreases e,
{
    match spec_compile_expr(st, e, nums, fnames) {
        Err(m) => Err(m),
        Ok(st1) => spec_emit_store(st1, name, in_function),
    }
}

/// The code of one statement, exactly as the two-level lowering emits it:
/// conditionals and loops patch their forward jumps to the byte offsets of
/// the block boundaries, and a buffer outgrowing 32-bit offsets is refused.
pub open spec fn spec_compile_stmt(
    st: CState,
    s: Statement,
    nums: Seq<(String, u64)>,
    fnames: Seq<String>,
    in_function: bool,
) -> Result<CState, Seq<char>>
    decreases s, 0nat,
{
    match s {
        Statement::Assign(name, e) => spec_assign(st, name, e, nums, fnames, in_function),
        Statement::Copy { dest, source } => spec_assign(st, dest, source, nums, fnames, in_function),
        Statement::Print(e) => (match spec_compile_expr(st, e, nums, fnames) {
            Err(m) => Err(m),
            Ok(st1) => Ok(CState { code: st1.code.push(Instr::Print), ..st1 }),
        }),
        Statement::Return(e) => (match spec_compile_expr(st, e, nums, fnames) {
            Err(m) => Err(m),
            Ok(st1) => Ok(CState { code: st1.code.push(Instr::Return), ..st1 }),
        }),
        Statement::Halt => Ok(CState { code: st.code.push(Instr::HaltAlt), ..st }),
        Statement::If { condition, then_block, else_block } => (match spec_compile_expr(
            st,
            condition,
            nums,
            fnames,
        ) {
            Err(m) => Err(m),
            Ok(st1) => {
                let jp = st1.code.len() as int;
                let st2 = CState { code: st1.code.push(Instr::JumpIfFalse(0)), ..st1 };
                match spec_compile_block(st2, then_block, 0, nums, fnames, in_function) {
                    Err(m) => Err(m),
                    Ok(st3) => match else_block {
                        None => if encode_list(st3.code).len() > 0xFFFF_FFFF {
                            Err("code too large"@)
                        } else {
                            Ok(
                                CState {
                                    code: st3.code.update(
                                        jp,
                                        Instr::JumpIfFalse(encode_list(st3.code).len() as u32),
                                    ),
                                    ..st3
                                },
                            )
                        },
                        Some(eb) => {
                            let jp2 = st3.code.len() as int;
                            let st4 = CState { code: st3.code.push(Instr::Jump(0)), ..st3 };
                            if encode_list(st4.code).len() > 0xFFFF_FFFF {
                                Err("code too large"@)
                            } else {
                                let st5 = CState {
                                    code: st4.code.update(
                                        jp,
                                        Instr::JumpIfFalse(encode_list(st4.code).len() as u32),
                                    ),
                                    ..st4
                                };
                                match spec_compile_block(st5, eb, 0, nums, fnames, in_function) {
                                    Err(m) => Err(m),
                                    Ok(st6) => if encode_list(st6.code).len() > 0xFFFF_FFFF {
                                        Err("code too large"@)
                                    } else {
                                        Ok(
                                            CState {
                                                code: st6.code.update(
                                                    jp2,
                                                    Instr::Jump(
                                                        encode_list(st6.code).len() as u32,
                                                    ),
                                                ),
                                                ..st6
                                            },
                                        )
                                    },
                                }
                            }
                        },
                    },
                }
            },
        }),
        Statement::While { condition, body } => (if encode_list(st.code).len() > 0xFFFF_FFFF {
            Err("code too large"@)
        } else {
            let loop_start = encode_list(st.code).len() as u32;
            match spec_compile_expr(st, condition, nums, fnames) {
                Err(m) => Err(m),
                Ok(st1) => {
                    let jp = st1.code.len() as int;
                    let st2 = CState { code: st1.code.push(Instr::JumpIfFalse(0)), ..st1 };
                    match spec_compile_block(st2, body, 0, nums, fnames, in_function) {
                        Err(m) => Err(m),
                        Ok(st3) => {
                            let st4 = CState {
                                code: st3.code.push(Instr::Jump(loop_start)),
                                ..st3
                            };
                            if encode_list(st4.code).len() > 0xFFFF_FFFF {
                                Err("code too large"@)
                            } else {
                                Ok(
                                    CState {
                                        code: st4.code.update(
                                            jp,
                                            Instr::JumpIfFalse(
                                                encode_list(st4.code).len() as u32,
                                            ),
                                        ),
                                        ..st4
                                    },
                                )
                            }
                        },
                    }
                },
            }
        }),
    }
}

pub open spec fn spec_compile_block(
    st: CState,
    stmts: Vec<Statement>,
    i: int,
    nums: Seq<(String, u64)>,
    fnames: Seq<String>,
    in_function: bool,
) -> Result<CState, Seq<char>>
    decreases stmts, stmts@.len() - i, 1nat,
{
    if i < 0 || i >= stmts@.len() {
        Ok(st)
    } else {
        match spec_compile_stmt(st, stmts@[i], nums, fnames, in_function) {
            Err(m) => Err(m),
            Ok(st1) => spec_compile_block(st1, stmts, i + 1, nums, fnames, in_function),
        }
    }
}


/// Binding one parameter name: an existing entry of the same spelling is
/// overwritten with the new slot, a new spelling is appended.
pub open spec fn spec_insert_param(locals: Seq<(String, u16)>, name: String, ix: u16) -> Seq<
    (String, u16),
> {
    match local_pos(locals, name@, 0) {
        Some(p) => locals.update(p, (name, ix)),
        None => locals.push((name, ix)),
    }
}

/// The local slots after binding all parameters in order.
pub open spec fn spec_params(locals: Seq<(String, u16)>, params: Vec<String>, i: int) -> Seq<
    (String, u16),
>
    decreases params, params@.len() - i, 1nat,
{
    if i < 0 || i >= params@.len() {
        locals
    } else {
        spec_params(spec_insert_param(locals, params@[i], i as u16), params, i + 1)
    }
}

/// One function definition lowered: name interned, parameters bound to the
/// first slots, the body compiled into a fresh buffer, a default return of
/// the empty text appended when the body does not end in a return, and the
/// table entry, name and buffer recorded.
pub open spec fn spec_compile_function(
    pool: Seq<ValueV>,
    fnames: Seq<String>,
    funcs: Seq<FuncMeta>,
    parts: Seq<Seq<Instr>>,
    f: Function,
    nums: Seq<(String, u64)>,
) -> Result<(Seq<ValueV>, Seq<String>, Seq<FuncMeta>, Seq<Seq<Instr>>), Seq<char>>
    decreases f, 1nat,
{
    if f.params@.len() > 0xFFFF {
        Err("too many parameters"@)
    } else if funcs.len() >= 0xFFFF_FFFD {
        Err("too many functions"@)
    } else {
        match spec_intern(pool, ValueV::Str(f.name@)) {
            Err(m) => Err(m),
            Ok((p1, ni)) => {
                let locals0 = spec_params(Seq::empty(), f.params, 0);
                match spec_compile_block(
                    CState { pool: p1, locals: locals0, code: Seq::empty() },
                    f.body,
                    0,
                    nums,
                    fnames,
                    true,
                ) {
                    Err(m) => Err(m),
                    Ok(stb) => {
                        if ends_with_return(f.body@) {
                            Ok(
                                (
                                    stb.pool,
                                    fnames.push(f.name),
                                    funcs.push(
                                        FuncMeta {
                                            name_const_idx: ni,
                                            arity: f.params@.len() as u16,
                                            local_count: stb.locals.len() as u16,
                                            code_offset: 0,
                                        },
                                    ),
                                    parts.push(stb.code),
                                ),
                            )
                        } else {
                            match spec_intern(stb.pool, ValueV::Str(""@)) {
                                Err(m) => Err(m),
                                Ok((p2, ei)) => Ok(
                                    (
                                        p2,
                                        fnames.push(f.name),
                                        funcs.push(
                                            FuncMeta {
                                                name_const_idx: ni,
                                                arity: f.params@.len() as u16,
                                                local_count: stb.locals.len() as u16,
                                                code_offset: 0,
                                            },
                                        ),
                                        parts.push(
                                            stb.code.push(Instr::LoadConst(ei)).push(
                                                Instr::Return,
                                            ),
                                        ),
                                    ),
                                ),
                            }
                        }
                    },
                }
            },
        }
    }
}

pub open spec fn spec_compile_functions(
    pool: Seq<ValueV>,
    fnames: Seq<String>,
    funcs: Seq<FuncMeta>,
    parts: Seq<Seq<Instr>>,
    functions: Vec<Function>,
    i: int,
    nums: Seq<(String, u64)>,
) -> Result<(Seq<ValueV>, Seq<String>, Seq<FuncMeta>, Seq<Seq<Instr>>), Seq<char>>
    decreases functions, functions@.len() - i, 2nat,
{
    if i < 0 || i >= functions@.len() {
        Ok((pool, fnames, funcs, parts))
    } else {
        match spec_compile_function(pool, fnames, funcs, parts, functions@[i], nums) {
            Err(m) => Err(m),
            Ok((p2, n2, f2, pa2)) => spec_compile_functions(
                p2,
                n2,
                f2,
                pa2,
                functions,
                i + 1,
                nums,
            ),
        }
    }
}

/// A jump relocated by the byte offset its buffer will start at.
pub open spec fn reloc_instr(ins: Instr, base: u32) -> Instr {
    match ins {
        Instr::Jump(t) => Instr::Jump((t + base) as u32),
        Instr::JumpIfFalse(t) => Instr::JumpIfFalse((t + base) as u32),
        other => other,
    }
}

pub open spec fn spec_relocate(part: Seq<Instr>, base: u32) -> Seq<Instr> {
    part.map_values(|ins: Instr| reloc_instr(ins, base))
}

/// Appending each function buffer after the code emitted so far: its table
/// entry receives the byte offset its code starts at, and its jumps are
/// relocated by that offset.
pub open spec fn spec_link(
    all: Seq<Instr>,
    base: u32,
    funcs: Seq<FuncMeta>,
    parts: Seq<Seq<Instr>>,
    i: int,
) -> Result<(Seq<Instr>, Seq<FuncMeta>), Seq<char>>
    decreases parts.len() - i,
{
    if i < 0 || i >= parts.len() {
        Ok((all, funcs))
    } else if encode_list(parts[i]).len() > 0xFFFF_FFFF {
        Err("code too large"@)
    } else if base > 0xFFFF_FFFF - encode_list(parts[i]).len() {
        Err("code too large"@)
    } else if i >= funcs.len() {
        Err("code too large"@)
    } else {
        spec_link(
            all + spec_relocate(parts[i], base),
            (base + encode_list(parts[i]).len()) as u32,
            funcs.update(i, FuncMeta { code_offset: base, ..funcs[i] }),
            parts,
            i + 1,
        )
    }
}

/// The whole compilation, as a function of the program and the numeric
/// bindings: function bodies first, then the main block closed by a halt,
/// then the bodies appended with relocated jumps and recorded offsets, and
/// finally the serialized artifact.
pub open spec fn spec_compile(p: Program, nums: Seq<(String, u64)>) -> Result<Seq<u8>, Seq<char>> {
    match spec_compile_functions(Seq::empty(), Seq::empty(), Seq::empty(), Seq::empty(), p.functions, 0, nums) {
        Err(m) => Err(m),
        Ok((pool1, fnames, funcs0, parts)) => {
            match spec_compile_block(
                CState { pool: pool1, locals: Seq::empty(), code: Seq::empty() },
                p.main_statements,
                0,
                nums,
                fnames,
                false,
            ) {
                Err(m) => Err(m),
                Ok(stm) => {
                    let main_code = stm.code.push(Instr::Halt);
                    if encode_list(main_code).len() > 0xFFFF_FFFF {
                        Err("code too large"@)
                    } else {
                        match spec_link(
                            main_code,
                            encode_list(main_code).len() as u32,
                            funcs0,
                            parts,
                            0,
                        ) {
                            Err(m) => Err(m),
                            Ok((all, funcs1)) => {
                                let code_bytes = encode_list(all);
                                if code_bytes.len() > 0xFFFF_FFFF {
                                    Err("code too large"@)
                                } else if !pool_strings_fit(stm.pool) {
                                    Err("string constant too large"@)
                                } else {
                                    Ok(spec_serialize(stm.pool, funcs1, code_bytes))
                                }
                            },
                        }
                    }
                },
            }
        },
    }
}


/// The copy statement lowers exactly like the assignment it mirrors: the
/// two surface spellings produce identical code, pools and locals.
pub proof fn lemma_copy_lowers_like_assign(
    st: CState,
    dest: String,
    source: Expr,
    nums: Seq<(String, u64)>,
    fnames: Seq<String>,
    in_function: bool,
)
    ensures
        spec_compile_stmt(st, Statement::Copy { dest, source }, nums, fnames, in_function)
            == spec_compile_stmt(
            st,
            Statement::Assign(dest, source),
            nums,
            fnames,
            in_function,
        ),
{
}

/// A lowered function body ends with the return opcode: the user's final
/// return, or the default return of the empty text appended to a body that
/// lacks one.
pub proof fn lemma_function_part_ends_with_return(
    pool: Seq<ValueV>,
    fnames: Seq<String>,
    funcs: Seq<FuncMeta>,
    parts: Seq<Seq<Instr>>,
    f: Function,
    nums: Seq<(String, u64)>,
)
    ensures
        spec_compile_function(pool, fnames, funcs, parts, f, nums) matches Ok(t) ==> {
            let part = t.3.last();
            part.len() >= 1 && part.last() == Instr::Return
        },
{
    if spec_compile_function(pool, fnames, funcs, parts, f, nums) is Ok {
        if f.params@.len() <= 0xFFFF && funcs.len() < 0xFFFF_FFFD {
            if spec_intern(pool, ValueV::Str(f.name@)) is Ok {
                let (p1, ni) = spec_intern(pool, ValueV::Str(f.name@))->Ok_0;
                let locals0 = spec_params(Seq::empty(), f.params, 0);
                let st0 = CState { pool: p1, locals: locals0, code: Seq::empty() };
                if spec_compile_block(st0, f.body, 0, nums, fnames, true) is Ok {
                    let stb = spec_compile_block(st0, f.body, 0, nums, fnames, true)->Ok_0;
                    if ends_with_return(f.body@) {
                        lemma_block_tail_return(st0, f.body, 0, nums, fnames);
                    }
                }
            }
        }
    }
}

/// A block whose last statement is a return lowers to code whose last
/// instruction is the return opcode.
proof fn lemma_block_tail_return(
    st: CState,
    stmts: Vec<Statement>,
    i: int,
    nums: Seq<(String, u64)>,
    fnames: Seq<String>,
)
    requires
        0 <= i < stmts@.len(),
        stmts@[stmts@.len() - 1] matches Statement::Return(_),
    ensures
        spec_compile_block(st, stmts, i, nums, fnames, true) matches Ok(stq) ==> stq.code.len()
            >= 1 && stq.code.last() == Instr::Return,
    decreases stmts@.len() - i,
{
    if spec_compile_block(st, stmts, i, nums, fnames, true) is Ok {
        if spec_compile_stmt(st, stmts@[i], nums, fnames, true) is Ok {
            let st1 = spec_compile_stmt(st, stmts@[i], nums, fnames, true)->Ok_0;
            if i < stmts@.len() - 1 {
                lemma_block_tail_return(st1, stmts, i + 1, nums, fnames);
            }
        }
    }
}


/// Linking appends the function buffers after the code already emitted:
/// the main region survives byte for byte, so the halt that closes it in
/// [`spec_compile`] still closes it in the linked code.
pub proof fn lemma_link_preserves_prefix(
    all: Seq<Instr>,
    base: u32,
    funcs: Seq<FuncMeta>,
    parts: Seq<Seq<Instr>>,
    i: int,
)
    ensures
        spec_link(all, base, funcs, parts, i) matches Ok(t) ==> t.0.len() >= all.len()
            && t.0.take(all.len() as int) == all && (all.len() > 0 ==> t.0[all.len() - 1]
            == all.last()),
    decreases parts.len() - i,
{
    if spec_link(all, base, funcs, parts, i) is Ok {
        if 0 <= i < parts.len() {
            if encode_list(parts[i]).len() <= 0xFFFF_FFFF && base <= 0xFFFF_FFFF - encode_list(
                parts[i],
            ).len() && i < funcs.len() {
                let all2 = all + spec_relocate(parts[i], base);
                lemma_link_preserves_prefix(
                    all2,
                    (base + encode_list(parts[i]).len()) as u32,
                    funcs.update(i, FuncMeta { code_offset: base, ..funcs[i] }),
                    parts,
                    i + 1,
                );
                let t = spec_link(all, base, funcs, parts, i)->Ok_0;
                assert(t.0.take(all2.len() as int).take(all.len() as int) =~= t.0.take(
                    all.len() as int,
                ));
                assert(all2.take(all.len() as int) =~= all);
            }
        } else {
            let t = spec_link(all, base, funcs, parts, i)->Ok_0;
            assert(t.0.take(all.len() as int) =~= all);
        }
    }
}


/// Expression lowering only appends instructions: everything emitted
/// before it is untouched.
proof fn lemma_spec_expr_extends(
    st: CState,
    e: Expr,
    nums: Seq<(String, u64)>,
    fnames: Seq<String>,
)
    ensures
        spec_compile_expr(st, e, nums, fnames) matches Ok(st2) ==> st2.code.len()
            >= st.code.len() && (forall|j: int| 0 <= j < st.code.len() ==> #[trigger] st2.code[j]
            == st.code[j]),
    decreases e, 2nat,
{
    if spec_compile_expr(st, e, nums, fnames) is Ok {
        match e {
            Expr::Binary { op, left, right } => {
                lemma_spec_expr_extends(st, *left, nums, fnames);
                let st1 = spec_compile_expr(st, *left, nums, fnames)->Ok_0;
                lemma_spec_expr_extends(st1, *right, nums, fnames);
            },
            Expr::FunctionCall { name, arg } => {
                if name@ != "TOUCHY"@ {
                    match arg {
                        Some(a) => {
                            lemma_spec_expr_extends(st, *a, nums, fnames);
                        },
                        None => {},
                    }
                }
            },
            Expr::UserFunctionCall { name, args } => {
                lemma_spec_args_extends(st, args, 0, nums, fnames);
            },
            _ => {},
        }
    }
}

proof fn lemma_spec_args_extends(
    st: CState,
    args: Vec<Expr>,
    i: int,
    nums: Seq<(String, u64)>,
    fnames: Seq<String>,
)
    ensures
        spec_compile_args(st, args, i, nums, fnames) matches Ok(st2) ==> st2.code.len()
            >= st.code.len() && (forall|j: int| 0 <= j < st.code.len() ==> #[trigger] st2.code[j]
            == st.code[j]),
    decreases args, args@.len() - i, 3nat,
{
    if spec_compile_args(st, args, i, nums, fnames) is Ok {
        if 0 <= i < args@.len() {
            lemma_spec_expr_extends(st, args@[i], nums, fnames);
            let st1 = spec_compile_expr(st, args@[i], nums, fnames)->Ok_0;
            lemma_spec_args_extends(st1, args, i + 1, nums, fnames);
        }
    }
}

/// Every call operand the expression lowering emits is a known callee:
/// zero and one only for the two built-ins, and otherwise two plus the
/// position of a declared function.
pub proof fn lemma_call_operands_expr(
    st: CState,
    e: Expr,
    nums: Seq<(String, u64)>,
    fnames: Seq<String>,
)
    requires
        fnames.len() <= 0xFFFF_FFFD,
    ensures
        spec_compile_expr(st, e, nums, fnames) matches Ok(st2) ==> forall|j: int|
            st.code.len() <= j < st2.code.len() ==> match #[trigger] st2.code[j] {
                Instr::Call(k) => k == 0 || k == 1 || (2 <= k && k - 2 < fnames.len()),
                _ => true,
            },
    decreases e, 2nat,
{
    if spec_compile_expr(st, e, nums, fnames) is Ok {
        let st2 = spec_compile_expr(st, e, nums, fnames)->Ok_0;
        match e {
            Expr::Binary { op, left, right } => {
                lemma_call_operands_expr(st, *left, nums, fnames);
                lemma_spec_expr_extends(st, *left, nums, fnames);
                let st1 = spec_compile_expr(st, *left, nums, fnames)->Ok_0;
                lemma_call_operands_expr(st1, *right, nums, fnames);
                lemma_spec_expr_extends(st1, *right, nums, fnames);
            },
            Expr::FunctionCall { name, arg } => {
                if name@ != "TOUCHY"@ {
                    match arg {
                        Some(a) => {
                            lemma_call_operands_expr(st, *a, nums, fnames);
                        },
                        None => {},
                    }
                }
            },
            Expr::UserFunctionCall { name, args } => {
                lemma_call_operands_args(st, args, 0, nums, fnames);
                lemma_spec_args_extends(st, args, 0, nums, fnames);
                lemma_fname_find_range(fnames, name@, 0);
                if fname_find(fnames, name@, 0) is Some {
                    let pos = fname_find(fnames, name@, 0)->0;
                    assert(((2 + pos) as u32) as int == 2 + pos);
                }
            },
            _ => {},
        }
    }
}

proof fn lemma_call_operands_args(
    st: CState,
    args: Vec<Expr>,
    i: int,
    nums: Seq<(String, u64)>,
    fnames: Seq<String>,
)
    requires
        fnames.len() <= 0xFFFF_FFFD,
    ensures
        spec_compile_args(st, args, i, nums, fnames) matches Ok(st2) ==> forall|j: int|
            st.code.len() <= j < st2.code.len() ==> match #[trigger] st2.code[j] {
                Instr::Call(k) => k == 0 || k == 1 || (2 <= k && k - 2 < fnames.len()),
                _ => true,
            },
    decreases args, args@.len() - i, 3nat,
{
    if spec_compile_args(st, args, i, nums, fnames) is Ok {
        if 0 <= i < args@.len() {
            lemma_call_operands_expr(st, args@[i], nums, fnames);
            lemma_spec_expr_extends(st, args@[i], nums, fnames);
            let st1 = spec_compile_expr(st, args@[i], nums, fnames)->Ok_0;
            lemma_call_operands_args(st1, args, i + 1, nums, fnames);
            lemma_spec_args_extends(st1, args, i + 1, nums, fnames);
        }
    }
}

proof fn lemma_fname_find_range(fnames: Seq<String>, n: Seq<char>, i: int)
    requires
        0 <= i,
    ensures
        fname_find(fnames, n, i) matches Some(p) ==> i <= p < fnames.len(),
    decreases fnames.len() - i,
{
    if i < fnames.len() && fnames[i]@ != n {
        lemma_fname_find_range(fnames, n, i + 1);
    }
}

} // verus!