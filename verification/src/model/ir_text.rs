use vstd::prelude::*;
use crate::model::ir::{
    ArithOp, Block, CmpOp, Function, Operation, Phi, Program, Type, TypeModel, Value, ValueModel,
    spec_value_type,
};
use crate::text::{append_decimal, append_decimal_wide, append_signed_decimal, append_str, byte_len, byte_length, decimal, push_char, signed_decimal, str_eq};
use crate::model::ir::{Label, RegNum, GlobalStrNum};
use crate::name_map::NameMap;

verus! {

/// How LLVM writes a type.
pub open spec fn llvm_type_text(t: TypeModel) -> Seq<char>
    decreases t,
{
    match t {
        TypeModel::Void => "void"@,
        TypeModel::Int => "i32"@,
        TypeModel::Bool => "i1"@,
        TypeModel::Char => "i8"@,
        TypeModel::Ptr(sub) => llvm_type_text(*sub) + "*"@,
        TypeModel::Struct(name) => "%.struct."@ + name,
    }
}

/// How LLVM writes an operand: a boolean as 0 or 1, the null pointer as 0.
pub open spec fn value_text(v: ValueModel) -> Seq<char> {
    match v {
        ValueModel::LitInt(i) => signed_decimal(i as int),
        ValueModel::LitBool(b) => if b { "1"@ } else { "0"@ },
        ValueModel::LitNullPtr => "0"@,
        ValueModel::Register(r, _) => "%.r"@ + decimal(r as nat),
        ValueModel::GlobalRegister(n) => "@.str."@ + decimal(n as nat),
    }
}

/// An operand preceded by its type.
pub open spec fn typed_value_text(v: ValueModel) -> Seq<char> {
    llvm_type_text(spec_value_type(v)) + " "@ + value_text(v)
}

/// The typed operands of a call, separated by commas.
pub open spec fn call_args_text(args: Seq<Value>) -> Seq<char>
    decreases args.len(),
{
    if args.len() == 0 {
        Seq::empty()
    } else {
        call_args_text(args.drop_last()) + (if args.len() > 1 { ", "@ } else { ""@ }) + typed_value_text(args.last()@)
    }
}

pub open spec fn label_text(l: u32) -> Seq<char> {
    "%.L"@ + decimal(l as nat)
}

pub open spec fn reg_text(r: u32) -> Seq<char> {
    "%.r"@ + decimal(r as nat)
}

pub open spec fn arith_text(op: ArithOp) -> Seq<char> {
    match op {
        ArithOp::Add => "add"@,
        ArithOp::Sub => "sub"@,
        ArithOp::Mul => "mul"@,
        ArithOp::Div => "sdiv"@,
        ArithOp::Mod => "srem"@,
    }
}

pub open spec fn compare_text(op: CmpOp) -> Seq<char> {
    match op {
        CmpOp::LT => "slt"@,
        CmpOp::LE => "sle"@,
        CmpOp::GT => "sgt"@,
        CmpOp::GE => "sge"@,
        CmpOp::EQ => "eq"@,
        CmpOp::NE => "ne"@,
    }
}

/// How LLVM writes an operation.
pub open spec fn operation_text(op: Operation) -> Seq<char> {
    match op {
        Operation::Return(Some(v)) => "ret "@ + typed_value_text(v@),
        Operation::Return(None) => "ret void"@,
        Operation::FunctionCall(reg, ret_type, name, args) =>
            (match reg { Some(r) => reg_text(r.0) + " = "@, None => ""@ })
            + "call "@ + llvm_type_text(ret_type@) + " @"@ + name@ + "("@ + call_args_text(args@) + ")"@,
        Operation::Arithmetic(r, op, v1, v2) =>
            reg_text(r.0) + " = "@ + arith_text(op) + " "@ + typed_value_text(v1@) + ", "@ + value_text(v2@),
        Operation::Compare(r, op, v1, v2) =>
            reg_text(r.0) + " = icmp "@ + compare_text(op) + " "@ + typed_value_text(v1@) + ", "@ + value_text(v2@),
        Operation::GetElementPtr(r, elem_type, ptr, ind) =>
            reg_text(r.0) + " = getelementptr "@ + llvm_type_text(elem_type@) + ", "@ + typed_value_text(ptr@)
                + ", "@ + typed_value_text(ind@),
        Operation::CastGlobalString(r, len, n) =>
            reg_text(r.0) + " = getelementptr ["@ + decimal(len as nat) + " x i8], ["@ + decimal(len as nat)
                + " x i8]* @.str."@ + decimal(n.0 as nat) + ", i32 0, i32 0"@,
        Operation::Branch1(l) => "br label "@ + label_text(l.0),
        Operation::Branch2(v, l1, l2) =>
            "br i1 "@ + value_text(v@) + ", label "@ + label_text(l1.0) + ", label "@ + label_text(l2.0),
    }
}

impl Type {
    /// Appends how LLVM writes this type.
    pub fn append_text(&self, s: &mut String)
        ensures
            final(s)@ == old(s)@ + llvm_type_text(self@),
        decreases self,
    {
        match self {
            Type::Void => append_str(s, "void"),
            Type::Int => append_str(s, "i32"),
            Type::Bool => append_str(s, "i1"),
            Type::Char => append_str(s, "i8"),
            Type::Ptr(sub) => {
                (**sub).append_text(s);
                append_str(s, "*");
                assert(final(s)@ =~= old(s)@ + llvm_type_text(self@));
            },
            Type::Struct(name) => {
                append_str(s, "%.struct.");
                append_str(s, name.as_str());
                assert(final(s)@ =~= old(s)@ + llvm_type_text(self@));
            },
        }
    }

    /// How LLVM writes this type.
    pub fn to_display_string(&self) -> (res: String)
        ensures
            res@ == llvm_type_text(self@),
    {
        let mut s = String::new();
        self.append_text(&mut s);
        assert(s@ =~= llvm_type_text(self@));
        s
    }
}

impl Value {
    /// Appends how LLVM writes this operand.
    pub fn append_text(&self, s: &mut String)
        ensures
            final(s)@ == old(s)@ + value_text(self@),
    {
        match self {
            Value::LitInt(i) => append_signed_decimal(s, *i),
            Value::LitBool(b) => if *b { append_str(s, "1") } else { append_str(s, "0") },
            Value::LitNullPtr => append_str(s, "0"),
            Value::Register(r, _) => {
                append_str(s, "%.r");
                append_decimal(s, r.0 as u64);
                assert(final(s)@ =~= old(s)@ + value_text(self@));
            },
            Value::GlobalRegister(n) => {
                append_str(s, "@.str.");
                append_decimal(s, n.0 as u64);
                assert(final(s)@ =~= old(s)@ + value_text(self@));
            },
        }
    }

    /// Appends this operand preceded by its type.
    pub fn append_typed_text(&self, s: &mut String)
        ensures
            final(s)@ == old(s)@ + typed_value_text(self@),
    {
        self.get_type().append_text(s);
        append_str(s, " ");
        self.append_text(s);
        assert(final(s)@ =~= old(s)@ + typed_value_text(self@));
    }

    /// How LLVM writes this operand.
    pub fn to_display_string(&self) -> (res: String)
        ensures
            res@ == value_text(self@),
    {
        let mut s = String::new();
        self.append_text(&mut s);
        assert(s@ =~= value_text(self@));
        s
    }
}

fn append_label(s: &mut String, l: u32)
    ensures
        final(s)@ == old(s)@ + label_text(l),
{
    append_str(s, "%.L");
    append_decimal(s, l as u64);
    assert(final(s)@ =~= old(s)@ + label_text(l));
}

fn append_reg(s: &mut String, r: u32)
    ensures
        final(s)@ == old(s)@ + reg_text(r),
{
    append_str(s, "%.r");
    append_decimal(s, r as u64);
    assert(final(s)@ =~= old(s)@ + reg_text(r));
}

fn append_call_args(s: &mut String, args: &Vec<Value>)
    ensures
        final(s)@ == old(s)@ + call_args_text(args@),
{
    let ghost start = s@;
    let mut i: usize = 0;
    while i < args.len()
        invariant
            i <= args@.len(),
            s@ == start + call_args_text(args@.take(i as int)),
        decreases args@.len() - i,
    {
        proof {
            assert(args@.take(i + 1).drop_last() =~= args@.take(i as int));
        }
        if i > 0 {
            append_str(s, ", ");
        }
        args[i].append_typed_text(s);
        proof {
            assert(args@.take(i + 1).last() == args@[i as int]);
            if i > 0 {
                assert(s@ =~= start + call_args_text(args@.take(i + 1)));
            } else {
                reveal_strlit("");
                assert(s@ =~= start + call_args_text(args@.take(i + 1)));
            }
        }
        i = i + 1;
    }
    assert(args@.take(args@.len() as int) =~= args@);
}

impl Operation {
    /// Appends how LLVM writes this operation.
    pub fn append_text(&self, s: &mut String)
        ensures
            final(s)@ == old(s)@ + operation_text(*self),
    {
        let ghost start = s@;
        match self {
            Operation::Return(opt_val) => match opt_val {
                Some(val) => {
                    append_str(s, "ret ");
                    val.append_typed_text(s);
                },
                None => append_str(s, "ret void"),
            },
            Operation::FunctionCall(opt_reg_num, ret_type, fun_name, args) => {
                match opt_reg_num {
                    Some(reg_num) => {
                        append_reg(s, reg_num.0);
                        append_str(s, " = ");
                    },
                    None => {
                        proof {
                            reveal_strlit("");
                        }
                    },
                }
                append_str(s, "call ");
                ret_type.append_text(s);
                append_str(s, " @");
                append_str(s, fun_name.as_str());
                append_str(s, "(");
                append_call_args(s, args);
                append_str(s, ")");
            },
            Operation::Arithmetic(reg_num, op, val1, val2) => {
                append_reg(s, reg_num.0);
                append_str(s, " = ");
                let op_str = match op {
                    ArithOp::Add => "add",
                    ArithOp::Sub => "sub",
                    ArithOp::Mul => "mul",
                    ArithOp::Div => "sdiv",
                    ArithOp::Mod => "srem",
                };
                append_str(s, op_str);
                append_str(s, " ");
                val1.append_typed_text(s);
                append_str(s, ", ");
                val2.append_text(s);
            },
            Operation::Compare(reg_num, op, val1, val2) => {
                append_reg(s, reg_num.0);
                append_str(s, " = icmp ");
                let op_str = match op {
                    CmpOp::LT => "slt",
                    CmpOp::LE => "sle",
                    CmpOp::GT => "sgt",
                    CmpOp::GE => "sge",
                    CmpOp::EQ => "eq",
                    CmpOp::NE => "ne",
                };
                append_str(s, op_str);
                append_str(s, " ");
                val1.append_typed_text(s);
                append_str(s, ", ");
                val2.append_text(s);
            },
            Operation::GetElementPtr(reg_num, elem_type, ptr_val, ind_val) => {
                append_reg(s, reg_num.0);
                append_str(s, " = getelementptr ");
                elem_type.append_text(s);
                append_str(s, ", ");
                ptr_val.append_typed_text(s);
                append_str(s, ", ");
                ind_val.append_typed_text(s);
            },
            Operation::CastGlobalString(reg_num, str_len, str_num) => {
                append_reg(s, reg_num.0);
                append_str(s, " = getelementptr [");
                append_decimal(s, *str_len as u64);
                append_str(s, " x i8], [");
                append_decimal(s, *str_len as u64);
                append_str(s, " x i8]* @.str.");
                append_decimal(s, str_num.0 as u64);
                append_str(s, ", i32 0, i32 0");
            },
            Operation::Branch1(label) => {
                append_str(s, "br label ");
                append_label(s, label.0);
            },
            Operation::Branch2(value, label1, label2) => {
                append_str(s, "br i1 ");
                value.append_text(s);
                append_str(s, ", label ");
                append_label(s, label1.0);
                append_str(s, ", label ");
                append_label(s, label2.0);
            },
        }
        assert(s@ =~= start + operation_text(*self));
    }

    /// How LLVM writes this operation.
    pub fn to_display_string(&self) -> (res: String)
        ensures
            res@ == operation_text(*self),
    {
        let mut s = String::new();
        self.append_text(&mut s);
        assert(s@ =~= operation_text(*self));
        s
    }
}


/// The incoming values of a phi function, separated by commas.
pub open spec fn phi_args_text(vs: Seq<(Value, Label)>) -> Seq<char>
    decreases vs.len(),
{
    if vs.len() == 0 {
        Seq::empty()
    } else {
        phi_args_text(vs.drop_last()) + (if vs.len() > 1 { ", "@ } else { ""@ })
            + "["@ + value_text(vs.last().0@) + ", "@ + label_text(vs.last().1.0) + "]"@
    }
}

/// How LLVM writes a phi function, on a line of its own.
pub open spec fn phi_text(p: Phi) -> Seq<char> {
    "    "@ + reg_text(p.0.0) + " = phi "@ + llvm_type_text(p.1@) + " "@ + phi_args_text(p.2@) + "\n"@
}

pub open spec fn phis_text(ps: Seq<Phi>) -> Seq<char>
    decreases ps.len(),
{
    if ps.len() == 0 { Seq::empty() } else { phis_text(ps.drop_last()) + phi_text(ps.last()) }
}

/// The operations of a block, each indented on a line of its own.
pub open spec fn operations_text(ops: Seq<Operation>) -> Seq<char>
    decreases ops.len(),
{
    if ops.len() == 0 { Seq::empty() } else { operations_text(ops.drop_last()) + "    "@ + operation_text(ops.last()) + "\n"@ }
}

/// How LLVM writes a block: its label, its phi functions, its operations.
pub open spec fn block_text(b: Block) -> Seq<char> {
    ".L"@ + decimal(b.label.0 as nat) + ":\n"@ + phis_text(b.phi_set@) + operations_text(b.body@)
}

pub open spec fn blocks_text(bs: Seq<Block>) -> Seq<char>
    decreases bs.len(),
{
    if bs.len() == 0 { Seq::empty() } else { blocks_text(bs.drop_last()) + block_text(bs.last()) }
}

/// The parameters of a function definition, separated by commas.
pub open spec fn fun_args_text(args: Seq<(RegNum, Type)>) -> Seq<char>
    decreases args.len(),
{
    if args.len() == 0 {
        Seq::empty()
    } else {
        fun_args_text(args.drop_last()) + (if args.len() > 1 { ", "@ } else { ""@ })
            + llvm_type_text(args.last().1@) + " "@ + reg_text(args.last().0.0)
    }
}

/// How LLVM writes a function definition; every function but `main` is private.
pub open spec fn function_text(f: Function) -> Seq<char> {
    "define "@ + (if f.name@ == "main"@ { ""@ } else { "private "@ }) + llvm_type_text(f.ret_type@) + " @"@ + f.name@
        + "("@ + fun_args_text(f.args@) + ") {\n"@ + blocks_text(f.blocks@) + "}\n\n"@
}

fn append_phi_args(s: &mut String, vs: &Vec<(Value, Label)>)
    ensures
        final(s)@ == old(s)@ + phi_args_text(vs@),
{
    let ghost start = s@;
    let mut i: usize = 0;
    while i < vs.len()
        invariant
            i <= vs@.len(),
            s@ == start + phi_args_text(vs@.take(i as int)),
        decreases vs@.len() - i,
    {
        proof {
            assert(vs@.take(i + 1).drop_last() =~= vs@.take(i as int));
            assert(vs@.take(i + 1).last() == vs@[i as int]);
            reveal_strlit("");
        }
        let ghost before = s@;
        if i > 0 {
            append_str(s, ", ");
        }
        let ghost mid = s@;
        append_str(s, "[");
        vs[i].0.append_text(s);
        append_str(s, ", ");
        append_label(s, vs[i].1.0);
        append_str(s, "]");
        proof {
            if i > 0 {
                assert(mid == before + ", "@);
            } else {
                assert(mid =~= before + ""@);
            }
            assert(s@ =~= start + phi_args_text(vs@.take(i + 1)));
        }
        i = i + 1;
    }
    assert(vs@.take(vs@.len() as int) =~= vs@);
}

fn append_fun_args(s: &mut String, args: &Vec<(RegNum, Type)>)
    ensures
        final(s)@ == old(s)@ + fun_args_text(args@),
{
    let ghost start = s@;
    let mut i: usize = 0;
    while i < args.len()
        invariant
            i <= args@.len(),
            s@ == start + fun_args_text(args@.take(i as int)),
        decreases args@.len() - i,
    {
        proof {
            assert(args@.take(i + 1).drop_last() =~= args@.take(i as int));
            assert(args@.take(i + 1).last() == args@[i as int]);
            reveal_strlit("");
        }
        let ghost before = s@;
        if i > 0 {
            append_str(s, ", ");
        }
        let ghost mid = s@;
        args[i].1.append_text(s);
        append_str(s, " ");
        append_reg(s, args[i].0.0);
        proof {
            if i > 0 {
                assert(mid == before + ", "@);
            } else {
                assert(mid =~= before + ""@);
            }
            assert(s@ =~= start + fun_args_text(args@.take(i + 1)));
        }
        i = i + 1;
    }
    assert(args@.take(args@.len() as int) =~= args@);
}

impl Block {
    /// Appends how LLVM writes this block.
    pub fn append_text(&self, s: &mut String)
        ensures
            final(s)@ == old(s)@ + block_text(*self),
    {
        let ghost start = s@;
        append_str(s, ".L");
        append_decimal(s, self.label.0 as u64);
        append_str(s, ":\n");
        let ghost head = s@;
        let mut i: usize = 0;
        while i < self.phi_set.len()
            invariant
                i <= self.phi_set@.len(),
                s@ == head + phis_text(self.phi_set@.take(i as int)),
            decreases self.phi_set@.len() - i,
        {
            proof {
                assert(self.phi_set@.take(i + 1).drop_last() =~= self.phi_set@.take(i as int));
                assert(self.phi_set@.take(i + 1).last() == self.phi_set@[i as int]);
            }
            let phi = &self.phi_set[i];
            append_str(s, "    ");
            append_reg(s, phi.0.0);
            append_str(s, " = phi ");
            phi.1.append_text(s);
            append_str(s, " ");
            append_phi_args(s, &phi.2);
            append_str(s, "\n");
            proof {
                assert(s@ =~= head + phis_text(self.phi_set@.take(i + 1)));
            }
            i = i + 1;
        }
        assert(self.phi_set@.take(self.phi_set@.len() as int) =~= self.phi_set@);
        let ghost mid = s@;
        let mut k: usize = 0;
        while k < self.body.len()
            invariant
                k <= self.body@.len(),
                s@ == mid + operations_text(self.body@.take(k as int)),
            decreases self.body@.len() - k,
        {
            proof {
                assert(self.body@.take(k + 1).drop_last() =~= self.body@.take(k as int));
                assert(self.body@.take(k + 1).last() == self.body@[k as int]);
            }
            append_str(s, "    ");
            self.body[k].append_text(s);
            append_str(s, "\n");
            proof {
                assert(s@ =~= mid + operations_text(self.body@.take(k + 1)));
            }
            k = k + 1;
        }
        assert(self.body@.take(self.body@.len() as int) =~= self.body@);
        assert(s@ =~= start + block_text(*self));
    }
}

fn append_blocks(s: &mut String, bs: &Vec<Block>)
    ensures
        final(s)@ == old(s)@ + blocks_text(bs@),
{
    let ghost head = s@;
    let mut i: usize = 0;
    while i < bs.len()
        invariant
            i <= bs@.len(),
            s@ == head + blocks_text(bs@.take(i as int)),
        decreases bs@.len() - i,
    {
        proof {
            assert(bs@.take(i + 1).drop_last() =~= bs@.take(i as int));
            assert(bs@.take(i + 1).last() == bs@[i as int]);
        }
        bs[i].append_text(s);
        proof {
            assert(s@ =~= head + blocks_text(bs@.take(i + 1)));
        }
        i = i + 1;
    }
    assert(bs@.take(bs@.len() as int) =~= bs@);
}

/// Appends the word that makes every function but `main` private.
fn append_linkage(s: &mut String, name: &str)
    ensures
        final(s)@ == old(s)@ + (if name@ == "main"@ { ""@ } else { "private "@ }),
{
    if str_eq(name, "main") {
        proof {
            reveal_strlit("");
            assert(s@ =~= s@ + ""@);
        }
    } else {
        append_str(s, "private ");
    }
}

impl Function {
    /// Appends how LLVM writes this function.
    #[verifier::spinoff_prover]
    pub fn append_text(&self, s: &mut String)
        ensures
            final(s)@ == old(s)@ + function_text(*self),
    {
        let ghost start = s@;
        append_str(s, "define ");
        append_linkage(s, self.name.as_str());
        self.ret_type.append_text(s);
        append_str(s, " @");
        append_str(s, self.name.as_str());
        append_str(s, "(");
        append_fun_args(s, &self.args);
        append_str(s, ") {\n");
        append_blocks(s, &self.blocks);
        append_str(s, "}\n\n");
        assert(s@ =~= start + function_text(*self));
    }

    /// How LLVM writes this function.
    pub fn to_display_string(&self) -> (res: String)
        ensures
            res@ == function_text(*self),
    {
        let mut s = String::new();
        self.append_text(&mut s);
        assert(s@ =~= function_text(*self));
        s
    }
}

/// How a character of a global string is written in an LLVM string constant: a backslash
/// and a double quote by their hexadecimal codes, anything else as it is.
pub open spec fn escape_char(c: char) -> Seq<char> {
    if c == '\\' {
        "\\5C"@
    } else if c == '"' {
        "\\22"@
    } else {
        seq![c]
    }
}

pub open spec fn escape_text(s: Seq<char>) -> Seq<char>
    decreases s.len(),
{
    if s.len() == 0 { Seq::empty() } else { escape_text(s.drop_last()) + escape_char(s.last()) }
}

/// The declaration of a global string constant, its terminating zero included.
pub open spec fn global_string_text(k: Seq<char>, n: GlobalStrNum) -> Seq<char> {
    "@.str."@ + decimal(n.0 as nat) + " = private constant ["@ + decimal(byte_len(k) + 1) + " x i8] c\""@
        + escape_text(k) + "\\00\"\n"@
}

pub open spec fn global_strings_text(es: Seq<(String, GlobalStrNum)>) -> Seq<char>
    decreases es.len(),
{
    if es.len() == 0 { Seq::empty() } else { global_strings_text(es.drop_last()) + global_string_text(es.last().0@, es.last().1) }
}

pub open spec fn functions_text(fs: Seq<Function>) -> Seq<char>
    decreases fs.len(),
{
    if fs.len() == 0 { Seq::empty() } else { functions_text(fs.drop_last()) + function_text(fs.last()) }
}

/// The declarations of the runtime library's functions.
pub open spec fn runtime_declarations() -> Seq<char> {
    "declare void @printInt(i32)\ndeclare void @printString(i8*)\ndeclare void @error()\ndeclare i32 @readInt()\ndeclare i8* @readString()\n\n"@
}

/// How LLVM writes a program: the runtime's declarations, the global strings, the functions.
pub open spec fn program_text(p: Program) -> Seq<char> {
    runtime_declarations() + global_strings_text(p.global_strings.entries()) + "\n\n"@ + functions_text(p.functions@)
}

/// Appends a string with its backslashes and double quotes escaped.
fn append_escaped(s: &mut String, k: &str)
    ensures
        final(s)@ == old(s)@ + escape_text(k@),
{
    let ghost start = s@;
    let ghost input = k@;
    for ch in it: k.chars()
        invariant
            it.seq() == input,
            s@ == start + escape_text(input.take(it.index() as int)),
    {
        proof {
            assert(input.take(it.index() + 1).drop_last() =~= input.take(it.index() as int));
        }
        if ch == '\\' {
            append_str(s, "\\5C");
        } else if ch == '"' {
            append_str(s, "\\22");
        } else {
            push_char(s, ch);
        }
        proof {
            assert(s@ =~= start + escape_text(input.take(it.index() + 1)));
        }
    }
    assert(input.take(input.len() as int) =~= input);
}

fn append_global_string(s: &mut String, k: &str, n: GlobalStrNum)
    ensures
        final(s)@ == old(s)@ + global_string_text(k@, n),
{
    let ghost start = s@;
    append_str(s, "@.str.");
    append_decimal(s, n.0 as u64);
    append_str(s, " = private constant [");
    let len = byte_length(k);
    append_decimal_wide(s, len as u128 + 1);
    append_str(s, " x i8] c\"");
    append_escaped(s, k);
    append_str(s, "\\00\"\n");
    assert(s@ =~= start + global_string_text(k@, n));
}

fn append_global_strings(s: &mut String, gs: &NameMap<GlobalStrNum>)
    ensures
        final(s)@ == old(s)@ + global_strings_text(gs.entries()),
{
    let ghost head = s@;
    let ghost es = gs.entries();
    let mut i: usize = 0;
    while i < gs.len()
        invariant
            es == gs.entries(),
            i <= es.len(),
            s@ == head + global_strings_text(es.take(i as int)),
        decreases es.len() - i,
    {
        proof {
            assert(es.take(i + 1).drop_last() =~= es.take(i as int));
            assert(es.take(i + 1).last() == es[i as int]);
        }
        let e = gs.entry_at(i);
        append_global_string(s, e.0.as_str(), e.1);
        proof {
            assert(s@ =~= head + global_strings_text(es.take(i + 1)));
        }
        i = i + 1;
    }
    assert(es.take(es.len() as int) =~= es);
}

fn append_functions(s: &mut String, fs: &Vec<Function>)
    ensures
        final(s)@ == old(s)@ + functions_text(fs@),
{
    let ghost mid = s@;
    let mut k: usize = 0;
    while k < fs.len()
        invariant
            k <= fs@.len(),
            s@ == mid + functions_text(fs@.take(k as int)),
        decreases fs@.len() - k,
    {
        proof {
            assert(fs@.take(k + 1).drop_last() =~= fs@.take(k as int));
            assert(fs@.take(k + 1).last() == fs@[k as int]);
        }
        fs[k].append_text(s);
        proof {
            assert(s@ =~= mid + functions_text(fs@.take(k + 1)));
        }
        k = k + 1;
    }
    assert(fs@.take(fs@.len() as int) =~= fs@);
}

impl Program {
    /// Appends how LLVM writes this program.
    pub fn append_text(&self, s: &mut String)
        ensures
            final(s)@ == old(s)@ + program_text(*self),
    {
        let ghost start = s@;
        append_str(s, "declare void @printInt(i32)\ndeclare void @printString(i8*)\ndeclare void @error()\ndeclare i32 @readInt()\ndeclare i8* @readString()\n\n");
        append_global_strings(s, &self.global_strings);
        append_str(s, "\n\n");
        append_functions(s, &self.functions);
        assert(s@ =~= start + program_text(*self));
    }

    /// How LLVM writes this program.
    pub fn to_display_string(&self) -> (res: String)
        ensures
            res@ == program_text(*self),
    {
        let mut s = String::new();
        self.append_text(&mut s);
        assert(s@ =~= program_text(*self));
        s
    }
}

} // verus!
