use vstd::prelude::*;
use crate::frontend_error::{FrontendError, FrontendResult};
use crate::model::ast::{BinaryOp, Block, Expr, InnerExpr, InnerStmt, InnerUnaryOp, ItemWithSpan, Program, Stmt, new_spanned_boxed};
use crate::codemap::CodeMap;
use crate::text::{push_char, pop_char, append_str, byte_len, byte_length};

verus! {

/// What the comment eraser knows after reading part of the source.
pub struct ScanState {
    pub result: Seq<char>,
    pub last_ch: char,
    pub erasing: bool,
    pub multiline: bool,
    pub inside_string: bool,
}

pub open spec fn scan_start() -> ScanState {
    ScanState { result: Seq::empty(), last_ch: '\0', erasing: false, multiline: false, inside_string: false }
}

/// Reading one more character `ch`.
///
/// Outside string literals, `#` and `//` start a comment that runs to the end of the line,
/// `/*` starts one that runs to the next `*/`. Each character of a comment becomes a space,
/// but line breaks stay. A `"` opens a string literal, which the next `"` not preceded by
/// a backslash closes.
pub open spec fn scan_step(st: ScanState, ch: char) -> ScanState {
    let next = if !st.erasing {
        if !st.inside_string && ch == '"' {
            ScanState { inside_string: true, result: st.result.push(ch), ..st }
        } else if st.inside_string && ch == '"' && st.last_ch != '\\' {
            ScanState { inside_string: false, result: st.result.push(ch), ..st }
        } else if st.inside_string {
            ScanState { result: st.result.push(ch), ..st }
        } else if ch == '#' || (st.last_ch == '/' && ch == '/') {
            let r = if st.last_ch == '/' { st.result.drop_last().push(' ') } else { st.result };
            ScanState { erasing: true, multiline: false, result: r.push(' '), ..st }
        } else if st.last_ch == '/' && ch == '*' {
            ScanState { erasing: true, multiline: true, result: st.result.drop_last().push(' ').push(' '), ..st }
        } else {
            ScanState { result: st.result.push(ch), ..st }
        }
    } else {
        if !st.multiline && ch == '\n' {
            ScanState { erasing: false, result: st.result.push(ch), ..st }
        } else if st.multiline && st.last_ch == '*' && ch == '/' {
            ScanState { erasing: false, result: st.result.push(' '), ..st }
        } else {
            ScanState { result: st.result.push(if ch == '\n' { '\n' } else { ' ' }), ..st }
        }
    };
    ScanState { last_ch: ch, ..next }
}

/// The state after reading all of `s`.
pub open spec fn scan(s: Seq<char>) -> ScanState
    decreases s.len(),
{
    if s.len() == 0 {
        scan_start()
    } else {
        scan_step(scan(s.drop_last()), s.last())
    }
}

/// The output keeps every position: each character either stays or becomes a space,
/// and line breaks stay exactly where they were.
pub open spec fn keeps_positions(input: Seq<char>, output: Seq<char>) -> bool {
    &&& output.len() == input.len()
    &&& forall|i: int| 0 <= i < input.len() ==> (#[trigger] output[i] == input[i] || output[i] == ' ')
    &&& forall|i: int| 0 <= i < input.len() ==> (#[trigger] input[i] == '\n' <==> output[i] == '\n')
}

/// Erasing comments keeps every position of the source.
pub proof fn lemma_scan_keeps_positions(s: Seq<char>)
    ensures
        keeps_positions(s, scan(s).result),
        scan(s).last_ch == (if s.len() == 0 { '\0' } else { s.last() }),
    decreases s.len(),
{
    if s.len() > 0 {
        let p = s.drop_last();
        lemma_scan_keeps_positions(p);
        let st = scan(p);
        let ch = s.last();
        let out = scan(s).result;
        assert(scan(s) == scan_step(st, ch));
        assert forall|i: int| 0 <= i < s.len() implies (#[trigger] out[i] == s[i] || out[i] == ' ') by {
            if i < p.len() {
                assert(s[i] == p[i]);
            }
        }
        assert forall|i: int| 0 <= i < s.len() implies (#[trigger] s[i] == '\n' <==> out[i] == '\n') by {
            if i < p.len() {
                assert(s[i] == p[i]);
                if i == p.len() - 1 && st.last_ch == '/' {
                    assert(p[i] == '/');
                }
            }
        }
    }
}

/// Replaces comments by spaces, keeping line breaks, so that every position stays where it was.
/// A `/*` comment that is not closed before the end is an error.
pub fn replace_comments(code: &str) -> (res: FrontendResult<String>)
    ensures
        !(scan(code@).erasing && scan(code@).multiline) ==> (res matches Ok(out) && out@ == scan(code@).result),
        scan(code@).erasing && scan(code@).multiline ==> (res matches Err(errs) && errs@.len() == 1
            && errs@[0].err@ == "Multiline comment must be closed before EOF"@
            && errs@[0].span == ((byte_len(code@) - 1) as usize, byte_len(code@) as usize)),
{
    let mut result = String::new();
    let mut last_ch = '\0';
    let mut erasing = false;
    let mut multiline = false;
    let mut inside_string = false;
    let ghost input = code@;
    for ch in it: code.chars()
        invariant
            it.seq() == input,
            ({
                let st = scan(input.take(it.index() as int));
                &&& st.result == result@
                &&& st.last_ch == last_ch
                &&& st.erasing == erasing
                &&& st.multiline == multiline
                &&& st.inside_string == inside_string
            }),
    {
        let ghost prefix = input.take(it.index() as int);
        proof {
            assert(input.take(it.index() + 1).drop_last() =~= prefix);
            lemma_scan_keeps_positions(prefix);
        }
        if !erasing {
            if !inside_string && ch == '"' {
                inside_string = true;
                push_char(&mut result, ch);
            } else if inside_string && ch == '"' && last_ch != '\\' {
                inside_string = false;
                push_char(&mut result, ch);
            } else if inside_string {
                push_char(&mut result, ch);
            } else if ch == '#' || (last_ch == '/' && ch == '/') {
                erasing = true;
                multiline = false;
                if last_ch == '/' {
                    pop_char(&mut result);
                    push_char(&mut result, ' ');
                }
                push_char(&mut result, ' ');
            } else if last_ch == '/' && ch == '*' {
                erasing = true;
                multiline = true;
                pop_char(&mut result);
                append_str(&mut result, "  ");
                proof {
                    reveal_strlit("  ");
                }
            } else {
                push_char(&mut result, ch);
            }
        } else {
            if !multiline && ch == '\n' {
                erasing = false;
                push_char(&mut result, ch);
            } else if multiline && last_ch == '*' && ch == '/' {
                erasing = false;
                push_char(&mut result, ' ');
            } else {
                push_char(&mut result, if ch == '\n' { '\n' } else { ' ' });
            }
        }
        last_ch = ch;
        proof {
            assert(scan(input.take(it.index() + 1)) == scan_step(scan(prefix), ch));
            assert(result@ =~= scan(input.take(it.index() + 1)).result);
        }
    }
    proof {
        assert(input.take(input.len() as int) =~= input);
    }
    if erasing && multiline {
        let n = byte_length(code);
        let mut msg = String::new();
        append_str(&mut msg, "Multiline comment must be closed before EOF");
        proof {
            assert(input.len() > 0);
            assert(vstd::utf8::encode_scalar(input[0] as u32).len() > 0);
            assert(vstd::utf8::encode_utf8(input).len() > 0);
            reveal_strlit("Multiline comment must be closed before EOF");
        }
        Err(vec![FrontendError { err: msg, span: (n - 1, n) }])
    } else {
        Ok(result)
    }
}


/// The value of a literal expression.
pub enum LitValue {
    Int(int),
    Bool(bool),
    Str(Seq<char>),
}

/// What folding an operator applied to literals gives.
pub enum FoldOutcome {
    /// The expression is not an operator applied to literals it can combine.
    NoFold,
    /// A constant division by zero.
    DivZero,
    /// A constant remainder that the target's 32-bit arithmetic cannot compute.
    Undefined,
    Value(LitValue),
}

pub open spec fn lit_of(e: InnerExpr) -> Option<LitValue> {
    match e {
        InnerExpr::LitInt(i) => Some(LitValue::Int(i as int)),
        InnerExpr::LitBool(b) => Some(LitValue::Bool(b)),
        InnerExpr::LitStr(s) => Some(LitValue::Str(s@)),
        _ => None,
    }
}

/// Integer division rounding toward zero.
pub open spec fn trunc_div(x: int, d: int) -> int {
    if x == 0 {
        0
    } else if x > 0 && d > 0 {
        x / d
    } else if x < 0 && d < 0 {
        (-x) / (-d)
    } else if x < 0 {
        -((-x) / d)
    } else {
        -(x / (-d))
    }
}

/// The remainder of division rounding toward zero; it has the sign of `x`.
pub open spec fn trunc_rem(x: int, d: int) -> int {
    x - d * trunc_div(x, d)
}

pub open spec fn fold_binary(l: LitValue, op: BinaryOp, r: LitValue) -> FoldOutcome {
    match (l, r) {
        (LitValue::Bool(a), LitValue::Bool(b)) => match op {
            BinaryOp::And => FoldOutcome::Value(LitValue::Bool(a && b)),
            BinaryOp::Or => FoldOutcome::Value(LitValue::Bool(a || b)),
            BinaryOp::EQ => FoldOutcome::Value(LitValue::Bool(a == b)),
            BinaryOp::NE => FoldOutcome::Value(LitValue::Bool(a != b)),
            _ => FoldOutcome::NoFold,
        },
        (LitValue::Str(a), LitValue::Str(b)) => match op {
            BinaryOp::Add => FoldOutcome::Value(LitValue::Str(a + b)),
            BinaryOp::EQ => FoldOutcome::Value(LitValue::Bool(a == b)),
            BinaryOp::NE => FoldOutcome::Value(LitValue::Bool(a != b)),
            _ => FoldOutcome::NoFold,
        },
        (LitValue::Int(a), LitValue::Int(b)) => match op {
            BinaryOp::Add => FoldOutcome::Value(LitValue::Int(a + b)),
            BinaryOp::Sub => FoldOutcome::Value(LitValue::Int(a - b)),
            BinaryOp::Mul => FoldOutcome::Value(LitValue::Int(a * b)),
            BinaryOp::Div => if b == 0 {
                FoldOutcome::DivZero
            } else {
                FoldOutcome::Value(LitValue::Int(trunc_div(a, b)))
            },
            BinaryOp::Mod => if b == 0 || (a == i32::MIN && b == -1) {
                FoldOutcome::Undefined
            } else {
                FoldOutcome::Value(LitValue::Int(trunc_rem(a, b)))
            },
            BinaryOp::LT => FoldOutcome::Value(LitValue::Bool(a < b)),
            BinaryOp::LE => FoldOutcome::Value(LitValue::Bool(a <= b)),
            BinaryOp::GT => FoldOutcome::Value(LitValue::Bool(a > b)),
            BinaryOp::GE => FoldOutcome::Value(LitValue::Bool(a >= b)),
            BinaryOp::EQ => FoldOutcome::Value(LitValue::Bool(a == b)),
            BinaryOp::NE => FoldOutcome::Value(LitValue::Bool(a != b)),
            _ => FoldOutcome::NoFold,
        },
        _ => FoldOutcome::NoFold,
    }
}

proof fn lemma_trunc_rem(x: int, d: int)
    requires
        d != 0,
    ensures
        trunc_rem(x, d) == (if x == 0 { 0 } else if x > 0 && d > 0 { x % d } else if x < 0 && d < 0 {
            ((x * -1) % (d * -1)) * -1
        } else if x < 0 { ((x * -1) % d) * -1 } else { x % (d * -1) }),
{
    if x == 0 {
        assert(trunc_div(x, d) == 0);
        assert(d * 0 == 0) by (nonlinear_arith);
        assert(trunc_rem(x, d) == 0);
    } else if x > 0 && d > 0 {
        vstd::arithmetic::div_mod::lemma_fundamental_div_mod(x, d);
        assert(trunc_rem(x, d) == x % d);
    } else if x < 0 && d < 0 {
        let (a, b) = (x * -1, d * -1);
        vstd::arithmetic::div_mod::lemma_fundamental_div_mod(a, b);
        let q = a / b;
        assert(trunc_div(x, d) == q);
        assert(d * q == -(b * q)) by (nonlinear_arith) requires b == d * -1;
        assert(trunc_rem(x, d) == (a % b) * -1);
    } else if x < 0 {
        let a = x * -1;
        vstd::arithmetic::div_mod::lemma_fundamental_div_mod(a, d);
        let q = a / d;
        assert(trunc_div(x, d) == -q);
        assert(d * (-q) == -(d * q)) by (nonlinear_arith);
        assert(trunc_rem(x, d) == (a % d) * -1);
    } else {
        let b = d * -1;
        vstd::arithmetic::div_mod::lemma_fundamental_div_mod(x, b);
        let q = x / b;
        assert(trunc_div(x, d) == -q);
        assert(d * (-q) == b * q) by (nonlinear_arith) requires b == d * -1;
        assert(trunc_rem(x, d) == x % b);
    }
}

/// Folding the outermost operator of `e`, if its operands are literals.
pub open spec fn fold_shallow(e: InnerExpr) -> FoldOutcome {
    match e {
        InnerExpr::BinaryOp(lhs, op, rhs) => match (lit_of(lhs.inner), lit_of(rhs.inner)) {
            (Some(l), Some(r)) => fold_binary(l, op, r),
            _ => FoldOutcome::NoFold,
        },
        InnerExpr::UnaryOp(op, sub) => match (op.inner, lit_of(sub.inner)) {
            (InnerUnaryOp::IntNeg, Some(LitValue::Int(v))) => FoldOutcome::Value(LitValue::Int(-v)),
            (InnerUnaryOp::BoolNeg, Some(LitValue::Bool(b))) => FoldOutcome::Value(LitValue::Bool(!b)),
            _ => FoldOutcome::NoFold,
        },
        _ => FoldOutcome::NoFold,
    }
}

/// Folding `e` stays within what 32-bit arithmetic computes.
pub open spec fn fold_defined(e: InnerExpr) -> bool {
    match fold_shallow(e) {
        FoldOutcome::Undefined => false,
        FoldOutcome::Value(LitValue::Int(v)) => i32::MIN <= v <= i32::MAX,
        _ => true,
    }
}

fn str_concat(a: &String, b: &String) -> (res: String)
    ensures
        res@ == a@ + b@,
{
    let mut r = a.clone();
    r.append(b.as_str());
    r
}

/// Replaces an operator applied to literals by the literal it computes.
/// A constant division by zero is an error; anything else comes back unchanged.
pub fn optimize_const_expr_shallow(expr: InnerExpr) -> (res: Result<InnerExpr, &'static str>)
    requires
        fold_defined(expr),
    ensures
        fold_shallow(expr) is NoFold ==> res == Ok::<InnerExpr, &'static str>(expr),
        fold_shallow(expr) is DivZero ==> (res matches Err(msg)
            && msg@ == "Assertion Error: Division by zero in constant expression"@),
        fold_shallow(expr) matches FoldOutcome::Value(v) ==> (res matches Ok(e) && lit_of(e) == Some(v)),
{
    let e = match &expr {
        InnerExpr::BinaryOp(lhs, op, rhs) => match (&lhs.inner, &rhs.inner) {
            (InnerExpr::LitBool(l), InnerExpr::LitBool(r)) => match op {
                BinaryOp::And => InnerExpr::LitBool(*l && *r),
                BinaryOp::Or => InnerExpr::LitBool(*l || *r),
                BinaryOp::EQ => InnerExpr::LitBool(*l == *r),
                BinaryOp::NE => InnerExpr::LitBool(*l != *r),
                _ => InnerExpr::LitNull,
            },
            (InnerExpr::LitStr(l), InnerExpr::LitStr(r)) => match op {
                BinaryOp::Add => InnerExpr::LitStr(str_concat(l, r)),
                BinaryOp::EQ => InnerExpr::LitBool(*l == *r),
                BinaryOp::NE => InnerExpr::LitBool(!(*l == *r)),
                _ => InnerExpr::LitNull,
            },
            (InnerExpr::LitInt(l), InnerExpr::LitInt(r)) => match op {
                BinaryOp::Add => InnerExpr::LitInt(*l + *r),
                BinaryOp::Sub => InnerExpr::LitInt(*l - *r),
                BinaryOp::Mul => InnerExpr::LitInt(*l * *r),
                BinaryOp::Div => {
                    if *r == 0 {
                        proof {
                            reveal_strlit("Assertion Error: Division by zero in constant expression");
                        }
                        return Err("Assertion Error: Division by zero in constant expression");
                    }
                    InnerExpr::LitInt(l.checked_div(*r).unwrap())
                },
                BinaryOp::Mod => {
                    let v = l.checked_rem(*r).unwrap();
                    proof {
                        lemma_trunc_rem(*l as int, *r as int);
                    }
                    InnerExpr::LitInt(v)
                },
                BinaryOp::LT => InnerExpr::LitBool(*l < *r),
                BinaryOp::LE => InnerExpr::LitBool(*l <= *r),
                BinaryOp::GT => InnerExpr::LitBool(*l > *r),
                BinaryOp::GE => InnerExpr::LitBool(*l >= *r),
                BinaryOp::EQ => InnerExpr::LitBool(*l == *r),
                BinaryOp::NE => InnerExpr::LitBool(*l != *r),
                _ => InnerExpr::LitNull,
            },
            _ => InnerExpr::LitNull,
        },
        InnerExpr::UnaryOp(op, subexpr) => match (&op.inner, &subexpr.inner) {
            (InnerUnaryOp::IntNeg, InnerExpr::LitInt(l)) => InnerExpr::LitInt(-*l),
            (InnerUnaryOp::BoolNeg, InnerExpr::LitBool(l)) => InnerExpr::LitBool(!*l),
            _ => InnerExpr::LitNull,
        },
        _ => InnerExpr::LitNull,
    };
    Ok(if let InnerExpr::LitNull = e { expr } else { e })
}


/// Wraps a folding result as a node spanning `l` to `r`; on an error, records it and gives `null`.
pub fn return_or_fail(
    l: usize,
    result: Result<InnerExpr, &'static str>,
    r: usize,
    errors: &mut Vec<FrontendError>,
) -> (res: Box<Expr>)
    ensures
        res.span == (l, r),
        match result {
            Ok(e) => res.inner == e && final(errors)@ == old(errors)@,
            Err(msg) => res.inner is LitNull && final(errors)@.len() == old(errors)@.len() + 1
                && final(errors)@.drop_last() == old(errors)@
                && final(errors)@.last().err@ == msg@ && final(errors)@.last().span == (l, r),
        },
{
    match result {
        Ok(e) => new_spanned_boxed(l, e, r),
        Err(err) => {
            errors.push(FrontendError { err: err.to_owned(), span: (l, r) });
            new_spanned_boxed(l, InnerExpr::LitNull, r)
        },
    }
}

/// A statement as a block: a block stays as it is, any other statement becomes the only
/// statement of a block with its span.
pub fn stmt_to_block(stmt: Box<Stmt>) -> (res: Block)
    ensures
        match stmt.inner {
            InnerStmt::Block(bl) => res == bl,
            _ => res.stmts@ == seq![stmt] && res.span == stmt.span,
        },
{
    let span = stmt.span;
    let ghost orig = stmt;
    let st = *stmt;
    match st.inner {
        InnerStmt::Block(bl) => bl,
        inner => {
            let stmt2 = Box::new(ItemWithSpan { inner, span });
            assert(stmt2 == orig);
            Block { stmts: vec![stmt2], span }
        },
    }
}


/// The message given where the grammar recognizes nothing and reports no error of its own.
pub open spec fn fatal_syntax_message() -> Seq<char> {
    "Fatal syntax error: can not recognize anything"@
}

/// What parsing gives once the grammar has run on the text of `code_len` bytes: the program
/// where the grammar gave one and reported no error; the grammar's errors where it reported
/// any; else a single error over the whole text saying that nothing was recognized.
pub open spec fn parse_outcome_is(code_len: nat, result: Option<Program>, errors: Seq<FrontendError>, res: FrontendResult<Program>) -> bool {
    if errors.len() > 0 {
        res matches Err(e) && e@ == errors
    } else {
        match result {
            Some(p) => res == Ok::<Program, Vec<FrontendError>>(p),
            None => res matches Err(e) && e@.len() == 1 && e@[0].err@ == fatal_syntax_message()
                && e@[0].span == (0usize, (if code_len > 0 { code_len - 1 } else { 0 }) as usize),
        }
    }
}

/// Turns what the grammar gave on a text of `code_len` bytes into the result of parsing.
pub fn parse_outcome(code_len: usize, result: Option<Program>, errors: Vec<FrontendError>) -> (res: FrontendResult<Program>)
    ensures
        parse_outcome_is(code_len as nat, result, errors@, res),
{
    match result {
        Some(program) => {
            if errors.len() == 0 {
                Ok(program)
            } else {
                Err(errors)
            }
        },
        None => {
            if errors.len() == 0 {
                let end = if code_len > 0 { code_len - 1 } else { 0 };
                let mut errs: Vec<FrontendError> = Vec::new();
                let msg = "Fatal syntax error: can not recognize anything";
                errs.push(FrontendError { err: msg.to_owned(), span: (0, end) });
                Err(errs)
            } else {
                Err(errors)
            }
        },
    }
}

/// Parses a source file: comments are erased first (an unclosed `/*` is an error), then
/// `grammar` reads the text, giving the program it recognized, if any, and the syntax errors
/// it found.
pub fn parse<G: Fn(&str) -> (Option<Program>, Vec<FrontendError>)>(codemap: &CodeMap, grammar: G) -> (res: FrontendResult<Program>)
    requires
        forall|c: &str| #[trigger] grammar.requires((c,)),
    ensures
        scan(codemap.spec_code()).erasing && scan(codemap.spec_code()).multiline ==> (res matches Err(errs)
            && errs@.len() == 1
            && errs@[0].err@ == "Multiline comment must be closed before EOF"@
            && errs@[0].span == ((byte_len(codemap.spec_code()) - 1) as usize, byte_len(codemap.spec_code()) as usize)),
        !(scan(codemap.spec_code()).erasing && scan(codemap.spec_code()).multiline) ==> exists|c: &str, r: (Option<Program>, Vec<FrontendError>)|
            c@ == scan(codemap.spec_code()).result && #[trigger] grammar.ensures((c,), r)
                && parse_outcome_is(byte_len(c@), r.0, r.1@, res),
{
    let code = match replace_comments(codemap.get_code()) {
        Ok(code) => code,
        Err(errors) => return Err(errors),
    };
    let text = code.as_str();
    let r = grammar(text);
    let len = byte_length(text);
    let (result, errors) = r;
    parse_outcome(len, result, errors)
}

} // verus!
