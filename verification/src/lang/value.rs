//! Values of the .tape language and the operations on them that do not
//! touch the runtime: truthiness, display, byte coercion, equality,
//! ordering, the operators and indexing.
use crate::inspect::str_eq;
use crate::lang::ast::{BinOp, UnOp};
use crate::replaying::same_slice;
use crate::text::{
    dec_int, lossy_string, push_chars, push_int, push_str, str_chars, string_of, utf8_lossy,
};
use vstd::prelude::*;
use vstd::string::StrSliceExecFns;
use vstd::utf8::*;

verus! {

#[derive(Debug)]
pub enum Value {
    Nil,
    Bool(bool),
    Int(i64),
    Bytes(Vec<u8>),
    Str(String),
    List(Vec<Value>),
}

/// A value as the specs see it.
pub enum ValueV {
    Nil,
    Bool(bool),
    Int(i64),
    Bytes(Seq<u8>),
    Str(Seq<char>),
    List(Seq<ValueV>),
}

pub open spec fn value_v(v: Value) -> ValueV
    decreases v, 1nat,
{
    match v {
        Value::Nil => ValueV::Nil,
        Value::Bool(b) => ValueV::Bool(b),
        Value::Int(n) => ValueV::Int(n),
        Value::Bytes(b) => ValueV::Bytes(b@),
        Value::Str(s) => ValueV::Str(s@),
        Value::List(l) => ValueV::List(values_v(l@)),
    }
}

pub open spec fn values_v(s: Seq<Value>) -> Seq<ValueV>
    decreases s, 0nat,
{
    if s.len() == 0 {
        Seq::empty()
    } else {
        values_v(s.drop_last()).push(value_v(s.last()))
    }
}

impl View for Value {
    type V = ValueV;

    open spec fn view(&self) -> ValueV {
        value_v(*self)
    }
}

pub proof fn lemma_values_len(s: Seq<Value>)
    ensures
        values_v(s).len() == s.len(),
    decreases s.len(),
{
    if s.len() > 0 {
        lemma_values_len(s.drop_last());
    }
}

pub proof fn lemma_values_index(s: Seq<Value>, i: int)
    requires
        0 <= i < s.len(),
    ensures
        values_v(s)[i] == value_v(s[i]),
    decreases s.len(),
{
    lemma_values_len(s.drop_last());
    if i < s.len() - 1 {
        lemma_values_index(s.drop_last(), i);
    }
}

pub proof fn lemma_values_push(s: Seq<Value>, v: Value)
    ensures
        values_v(s.push(v)) == values_v(s).push(value_v(v)),
{
    assert(s.push(v).drop_last() =~= s);
}

/// Is the value true in a condition? nil, false, 0 and empty things are not.
pub open spec fn truthy(v: ValueV) -> bool {
    match v {
        ValueV::Nil => false,
        ValueV::Bool(b) => b,
        ValueV::Int(i) => i != 0,
        ValueV::Bytes(b) => b.len() > 0,
        ValueV::Str(s) => s.len() > 0,
        ValueV::List(l) => l.len() > 0,
    }
}

/// How a value prints: lists as `[a, b]`, bytes decoded lossily as UTF-8.
pub open spec fn display(v: ValueV) -> Seq<char>
    decreases v, 1nat,
{
    match v {
        ValueV::Nil => "nil"@,
        ValueV::Bool(b) => if b {
            "true"@
        } else {
            "false"@
        },
        ValueV::Int(i) => dec_int(i as int),
        ValueV::Bytes(b) => utf8_lossy(b),
        ValueV::Str(s) => s,
        ValueV::List(items) => "["@ + display_items(items) + "]"@,
    }
}

/// The items of a list, displayed and joined by ", ".
pub open spec fn display_items(items: Seq<ValueV>) -> Seq<char>
    decreases items, 0nat,
{
    if items.len() == 0 {
        Seq::empty()
    } else if items.len() == 1 {
        display(items[0])
    } else {
        display_items(items.drop_last()) + ", "@ + display(items.last())
    }
}

/// The bytes an io or fs call is handed: bytes as they are, strings as
/// UTF-8, anything else as its display form.
pub open spec fn to_bytes(v: ValueV) -> Seq<u8> {
    match v {
        ValueV::Bytes(b) => b,
        ValueV::Str(s) => encode_utf8(s),
        _ => encode_utf8(display(v)),
    }
}

/// Strings in lexicographic order of their characters (the order of
/// their UTF-8 bytes): -1, 0 or 1.
pub open spec fn lex_order(a: Seq<char>, b: Seq<char>) -> int
    decreases a.len(),
{
    if a.len() == 0 {
        if b.len() == 0 {
            0
        } else {
            -1
        }
    } else if b.len() == 0 {
        1
    } else if a[0] == b[0] {
        lex_order(a.drop_first(), b.drop_first())
    } else if (a[0] as u32) < (b[0] as u32) {
        -1
    } else {
        1
    }
}

/// How two values compare, where they can be compared at all.
pub open spec fn order(l: ValueV, r: ValueV) -> Option<int> {
    match (l, r) {
        (ValueV::Int(a), ValueV::Int(b)) => Some(
            if a < b {
                -1
            } else if a == b {
                0
            } else {
                1
            },
        ),
        (ValueV::Str(a), ValueV::Str(b)) => Some(lex_order(a, b)),
        _ => None,
    }
}

pub open spec fn overflow_msg() -> Seq<char> {
    "integer overflow"@
}

pub open spec fn int_or_overflow(v: int) -> Result<ValueV, Seq<char>> {
    if i64::MIN <= v <= i64::MAX {
        Ok(ValueV::Int(v as i64))
    } else {
        Err(overflow_msg())
    }
}

pub open spec fn compare_with(op: BinOp, l: ValueV, r: ValueV) -> Result<ValueV, Seq<char>> {
    match order(l, r) {
        Some(o) => Ok(
            ValueV::Bool(
                match op {
                    BinOp::Lt => o < 0,
                    BinOp::Le => o <= 0,
                    BinOp::Gt => o > 0,
                    _ => o >= 0,
                },
            ),
        ),
        None => Err("comparison: incompatible types"@),
    }
}

/// A binary operator other than `&&` and `||` (those short-circuit, and
/// the evaluator handles them). Integer overflow is an error.
pub open spec fn binop(op: BinOp, l: ValueV, r: ValueV) -> Result<ValueV, Seq<char>> {
    match op {
        BinOp::Add => match (l, r) {
            (ValueV::Int(a), ValueV::Int(b)) => int_or_overflow(a + b),
            (ValueV::Str(a), ValueV::Str(b)) => Ok(ValueV::Str(a + b)),
            (ValueV::Str(a), b) => Ok(ValueV::Str(a + display(b))),
            (a, ValueV::Str(b)) => Ok(ValueV::Str(display(a) + b)),
            _ => Err("+: unsupported operands"@),
        },
        BinOp::Sub => match (l, r) {
            (ValueV::Int(a), ValueV::Int(b)) => int_or_overflow(a - b),
            _ => Err("arithmetic: need ints"@),
        },
        BinOp::Mul => match (l, r) {
            (ValueV::Int(a), ValueV::Int(b)) => int_or_overflow(a * b),
            _ => Err("arithmetic: need ints"@),
        },
        BinOp::Div => match (l, r) {
            (_, ValueV::Int(0)) => Err("division by zero"@),
            (ValueV::Int(a), ValueV::Int(b)) => match a.checked_div(b) {
                Some(q) => Ok(ValueV::Int(q)),
                None => Err(overflow_msg()),
            },
            _ => Err("/: need ints"@),
        },
        BinOp::Mod => match (l, r) {
            (_, ValueV::Int(0)) => Err("mod by zero"@),
            (ValueV::Int(a), ValueV::Int(b)) => match a.checked_rem(b) {
                Some(q) => Ok(ValueV::Int(q)),
                None => Err(overflow_msg()),
            },
            _ => Err("%: need ints"@),
        },
        BinOp::Eq => Ok(ValueV::Bool(l == r)),
        BinOp::Neq => Ok(ValueV::Bool(l != r)),
        _ => compare_with(op, l, r),
    }
}

/// `-x` on integers (overflow is an error) and `!x` on anything.
pub open spec fn unop(op: UnOp, v: ValueV) -> Result<ValueV, Seq<char>> {
    match (op, v) {
        (UnOp::Neg, ValueV::Int(n)) => int_or_overflow(-n),
        (UnOp::Not, v) => Ok(ValueV::Bool(!truthy(v))),
        _ => Err("bad unary operand"@),
    }
}

/// `t[i]`: a byte of a byte string or of a string's UTF-8, or a list item.
/// The index is taken as a `usize`, as the lookup takes it.
pub open spec fn index_value(t: ValueV, i: ValueV) -> Result<ValueV, Seq<char>> {
    match i {
        ValueV::Int(n) => {
            let k = n as usize;
            match t {
                ValueV::Bytes(b) => if k < b.len() {
                    Ok(ValueV::Int(b[k as int] as i64))
                } else {
                    Err("index out of range"@)
                },
                ValueV::Str(s) => if k < encode_utf8(s).len() {
                    Ok(ValueV::Int(encode_utf8(s)[k as int] as i64))
                } else {
                    Err("index out of range"@)
                },
                ValueV::List(l) => if k < l.len() {
                    Ok(l[k as int])
                } else {
                    Err("index out of range"@)
                },
                _ => Err("cannot index this value"@),
            }
        },
        _ => Err("index must be int"@),
    }
}

/// The message form of a result: `Ok` values by their view.
pub open spec fn msg_res(r: Result<Value, String>) -> Result<ValueV, Seq<char>> {
    match r {
        Ok(v) => Ok(v@),
        Err(m) => Err(m@),
    }
}

impl Value {
    /// nil, false, 0 and empty things are false; everything else is true.
    pub fn truthy(&self) -> (b: bool)
        ensures
            b == truthy(self@),
    {
        match self {
            Value::Nil => false,
            Value::Bool(b) => *b,
            Value::Int(i) => *i != 0,
            Value::Bytes(b) => b.len() > 0,
            Value::Str(s) => s.as_str().unicode_len() > 0,
            Value::List(l) => {
                proof {
                    lemma_values_len(l@);
                }
                l.len() > 0
            },
        }
    }

    /// Append how the value prints.
    #[verifier::loop_isolation(false)]
    pub fn push_display(&self, out: &mut Vec<char>)
        ensures
            final(out)@ == old(out)@ + display(self@),
        decreases self,
    {
        match self {
            Value::Nil => push_str(out, "nil"),
            Value::Bool(b) => {
                if *b {
                    push_str(out, "true")
                } else {
                    push_str(out, "false")
                }
            },
            Value::Int(i) => push_int(out, *i),
            Value::Bytes(b) => {
                let s = lossy_string(b.as_slice());
                push_str(out, s.as_str());
            },
            Value::Str(s) => push_str(out, s.as_str()),
            Value::List(items) => {
                let ghost start = out@;
                let ghost vs = values_v(items@);
                proof {
                    lemma_values_len(items@);
                }
                push_str(out, "[");
                let mut i: usize = 0;
                while i < items.len()
                    invariant
                        i <= items@.len(),
                        vs == values_v(items@),
                        vs.len() == items@.len(),
                        out@ == start + "["@ + display_items(vs.take(i as int)),
                    decreases items@.len() - i,
                {
                    proof {
                        lemma_values_index(items@, i as int);
                        assert(vs.take(i + 1).drop_last() =~= vs.take(i as int));
                        assert(vs.take(i + 1).last() == vs[i as int]);
                    }
                    if i > 0 {
                        push_str(out, ", ");
                    }
                    proof {
                        assert(decreases_to!(*items => items[i as int]));
                    }
                    items[i].push_display(out);
                    proof {
                        if i == 0 {
                            assert(vs.take(1)[0] == vs[0]);
                        }
                    }
                    i += 1;
                }
                push_str(out, "]");
                assert(vs.take(items@.len() as int) =~= vs);
            },
        }
        assert(final(out)@ =~= old(out)@ + display(self@));
    }

    /// How the value prints.
    pub fn to_display(&self) -> (s: String)
        ensures
            s@ == display(self@),
    {
        let mut v: Vec<char> = Vec::new();
        self.push_display(&mut v);
        assert(v@ =~= display(self@));
        string_of(v.as_slice())
    }

    /// The bytes io and fs calls are handed: bytes pass through, strings
    /// become UTF-8, everything else is rendered by `to_display`.
    pub fn to_bytes(&self) -> (b: Vec<u8>)
        ensures
            b@ == to_bytes(self@),
    {
        match self {
            Value::Bytes(b) => vstd::slice::slice_to_vec(b.as_slice()),
            Value::Str(s) => s.as_str().as_bytes_vec(),
            _ => {
                let d = self.to_display();
                d.as_str().as_bytes_vec()
            },
        }
    }

    /// An independent copy of the value.
    #[verifier::loop_isolation(false)]
    pub fn duplicate(&self) -> (r: Value)
        ensures
            r@ == self@,
        decreases self,
    {
        match self {
            Value::Nil => Value::Nil,
            Value::Bool(b) => Value::Bool(*b),
            Value::Int(i) => Value::Int(*i),
            Value::Bytes(b) => Value::Bytes(vstd::slice::slice_to_vec(b.as_slice())),
            Value::Str(s) => Value::Str(string_of(str_chars(s.as_str()).as_slice())),
            Value::List(items) => {
                let mut out: Vec<Value> = Vec::new();
                let mut i: usize = 0;
                while i < items.len()
                    invariant
                        i <= items@.len(),
                        values_v(out@) == values_v(items@.take(i as int)),
                    decreases items@.len() - i,
                {
                    proof {
                        assert(decreases_to!(*items => items[i as int]));
                    }
                    let v = items[i].duplicate();
                    proof {
                        lemma_values_push(out@, v);
                        lemma_values_push(items@.take(i as int), items@[i as int]);
                        assert(items@.take(i + 1) =~= items@.take(i as int).push(items@[i as int]));
                    }
                    out.push(v);
                    i += 1;
                }
                assert(items@.take(items@.len() as int) =~= items@);
                Value::List(out)
            },
        }
    }
}

/// `==` on values: same variant, equal contents.
#[verifier::loop_isolation(false)]
pub fn values_equal(a: &Value, b: &Value) -> (r: bool)
    ensures
        r == (a@ == b@),
    decreases a,
{
    match (a, b) {
        (Value::Nil, Value::Nil) => true,
        (Value::Bool(x), Value::Bool(y)) => *x == *y,
        (Value::Int(x), Value::Int(y)) => *x == *y,
        (Value::Bytes(x), Value::Bytes(y)) => same_slice(x.as_slice(), y.as_slice()),
        (Value::Str(x), Value::Str(y)) => str_eq(x.as_str(), y.as_str()),
        (Value::List(x), Value::List(y)) => {
            proof {
                lemma_values_len(x@);
                lemma_values_len(y@);
            }
            if x.len() != y.len() {
                return false;
            }
            let mut i: usize = 0;
            while i < x.len()
                invariant
                    i <= x@.len(),
                    x@.len() == y@.len(),
                    values_v(x@).len() == x@.len(),
                    values_v(y@).len() == y@.len(),
                    forall|j: int| 0 <= j < i ==> values_v(x@)[j] == values_v(y@)[j],
                decreases x@.len() - i,
            {
                proof {
                    lemma_values_index(x@, i as int);
                    lemma_values_index(y@, i as int);
                }
                proof {
                    assert(decreases_to!(*x => x[i as int]));
                }
                if !values_equal(&x[i], &y[i]) {
                    assert(values_v(x@)[i as int] != values_v(y@)[i as int]);
                    assert(values_v(x@) != values_v(y@));
                    return false;
                }
                i += 1;
            }
            assert(values_v(x@) =~= values_v(y@));
            true
        },
        _ => false,
    }
}

/// Compare two strings character by character: -1, 0 or 1.
fn str_order(a: &str, b: &str) -> (r: i8)
    ensures
        r as int == lex_order(a@, b@),
{
    let x = str_chars(a);
    let y = str_chars(b);
    let mut i: usize = 0;
    assert(x@.skip(0) =~= x@);
    assert(y@.skip(0) =~= y@);
    while i < x.len() && i < y.len() && x[i] == y[i]
        invariant
            i <= x@.len(),
            i <= y@.len(),
            lex_order(a@, b@) == lex_order(x@.skip(i as int), y@.skip(i as int)),
            x@ == a@,
            y@ == b@,
        decreases x@.len() - i,
    {
        assert(x@.skip(i as int).drop_first() =~= x@.skip(i + 1));
        assert(y@.skip(i as int).drop_first() =~= y@.skip(i + 1));
        i += 1;
    }
    assert(i < x@.len() ==> x@.skip(i as int)[0] == x@[i as int]);
    assert(i < y@.len() ==> y@.skip(i as int)[0] == y@[i as int]);
    if i == x.len() {
        if i == y.len() {
            0
        } else {
            -1
        }
    } else if i == y.len() {
        1
    } else if (x[i] as u32) < (y[i] as u32) {
        -1
    } else {
        1
    }
}

fn order_of(l: &Value, r: &Value) -> (o: Option<i8>)
    ensures
        match order(l@, r@) {
            Some(x) => o matches Some(y) && y as int == x,
            None => o is None,
        },
{
    match (l, r) {
        (Value::Int(a), Value::Int(b)) => Some(
            if *a < *b {
                -1
            } else if *a == *b {
                0
            } else {
                1
            },
        ),
        (Value::Str(a), Value::Str(b)) => Some(str_order(a.as_str(), b.as_str())),
        _ => None,
    }
}

fn message(s: &str) -> (m: String)
    ensures
        m@ == s@,
{
    string_of(str_chars(s).as_slice())
}

/// `a + b` on the characters of two strings.
fn concat(a: &str, b: &str) -> (s: String)
    ensures
        s@ == a@ + b@,
{
    let mut v = str_chars(a);
    push_str(&mut v, b);
    string_of(v.as_slice())
}

/// Apply a binary operator other than `&&` and `||`.
pub fn apply_binop(op: BinOp, l: Value, r: Value) -> (res: Result<Value, String>)
    requires
        op != BinOp::And,
        op != BinOp::Or,
    ensures
        msg_res(res) == binop(op, l@, r@),
{
    match op {
        BinOp::Add => match (l, r) {
            (Value::Int(a), Value::Int(b)) => match a.checked_add(b) {
                Some(c) => Ok(Value::Int(c)),
                None => Err(message("integer overflow")),
            },
            (Value::Str(a), Value::Str(b)) => Ok(Value::Str(concat(a.as_str(), b.as_str()))),
            (Value::Str(a), b) => {
                let d = b.to_display();
                Ok(Value::Str(concat(a.as_str(), d.as_str())))
            },
            (a, Value::Str(b)) => {
                let d = a.to_display();
                Ok(Value::Str(concat(d.as_str(), b.as_str())))
            },
            _ => Err(message("+: unsupported operands")),
        },
        BinOp::Sub => match (l, r) {
            (Value::Int(a), Value::Int(b)) => match a.checked_sub(b) {
                Some(c) => Ok(Value::Int(c)),
                None => Err(message("integer overflow")),
            },
            _ => Err(message("arithmetic: need ints")),
        },
        BinOp::Mul => match (l, r) {
            (Value::Int(a), Value::Int(b)) => match a.checked_mul(b) {
                Some(c) => Ok(Value::Int(c)),
                None => Err(message("integer overflow")),
            },
            _ => Err(message("arithmetic: need ints")),
        },
        BinOp::Div => match (l, r) {
            (_, Value::Int(0)) => Err(message("division by zero")),
            (Value::Int(a), Value::Int(b)) => match a.checked_div(b) {
                Some(c) => Ok(Value::Int(c)),
                None => Err(message("integer overflow")),
            },
            _ => Err(message("/: need ints")),
        },
        BinOp::Mod => match (l, r) {
            (_, Value::Int(0)) => Err(message("mod by zero")),
            (Value::Int(a), Value::Int(b)) => match a.checked_rem(b) {
                Some(c) => Ok(Value::Int(c)),
                None => Err(message("integer overflow")),
            },
            _ => Err(message("%: need ints")),
        },
        BinOp::Eq => Ok(Value::Bool(values_equal(&l, &r))),
        BinOp::Neq => Ok(Value::Bool(!values_equal(&l, &r))),
        _ => match order_of(&l, &r) {
            Some(o) => Ok(
                Value::Bool(
                    match op {
                        BinOp::Lt => o < 0,
                        BinOp::Le => o <= 0,
                        BinOp::Gt => o > 0,
                        _ => o >= 0,
                    },
                ),
            ),
            None => Err(message("comparison: incompatible types")),
        },
    }
}

/// Apply a unary operator.
pub fn apply_unop(op: UnOp, v: Value) -> (res: Result<Value, String>)
    ensures
        msg_res(res) == unop(op, v@),
{
    match (op, v) {
        (UnOp::Neg, Value::Int(n)) => {
            if n == i64::MIN {
                Err(message("integer overflow"))
            } else {
                Ok(Value::Int(-n))
            }
        },
        (UnOp::Not, v) => Ok(Value::Bool(!v.truthy())),
        _ => Err(message("bad unary operand")),
    }
}

/// `t[i]`.
pub fn index_of(t: &Value, i: &Value) -> (res: Result<Value, String>)
    ensures
        msg_res(res) == index_value(t@, i@),
{
    match i {
        Value::Int(n) => {
            let k = *n as usize;
            match t {
                Value::Bytes(b) => if k < b.len() {
                    Ok(Value::Int(b[k] as i64))
                } else {
                    Err(message("index out of range"))
                },
                Value::Str(s) => {
                    let bytes = s.as_str().as_bytes();
                    if k < bytes.len() {
                        Ok(Value::Int(bytes[k] as i64))
                    } else {
                        Err(message("index out of range"))
                    }
                },
                Value::List(l) => {
                    proof {
                        lemma_values_len(l@);
                    }
                    if k < l.len() {
                        proof {
                            lemma_values_index(l@, k as int);
                        }
                        Ok(l[k].duplicate())
                    } else {
                        Err(message("index out of range"))
                    }
                },
                _ => Err(message("cannot index this value")),
            }
        },
        _ => Err(message("index must be int")),
    }
}

/// On integers the six comparison operators are the comparisons of
/// their values: `a < b`, `a <= b`, `a > b`, `a >= b`, `a == b`, `a != b`.
pub proof fn law_int_comparisons(a: i64, b: i64)
    ensures
        binop(BinOp::Lt, ValueV::Int(a), ValueV::Int(b)) == Ok::<ValueV, Seq<char>>(ValueV::Bool(a < b)),
        binop(BinOp::Le, ValueV::Int(a), ValueV::Int(b)) == Ok::<ValueV, Seq<char>>(ValueV::Bool(a <= b)),
        binop(BinOp::Gt, ValueV::Int(a), ValueV::Int(b)) == Ok::<ValueV, Seq<char>>(ValueV::Bool(a > b)),
        binop(BinOp::Ge, ValueV::Int(a), ValueV::Int(b)) == Ok::<ValueV, Seq<char>>(ValueV::Bool(a >= b)),
        binop(BinOp::Eq, ValueV::Int(a), ValueV::Int(b)) == Ok::<ValueV, Seq<char>>(ValueV::Bool(a == b)),
        binop(BinOp::Neq, ValueV::Int(a), ValueV::Int(b)) == Ok::<ValueV, Seq<char>>(ValueV::Bool(a != b)),
{
}

/// Swapping two strings negates their order, and a string is level with
/// itself.
pub proof fn lemma_lex_order_swap(a: Seq<char>, b: Seq<char>)
    ensures
        lex_order(a, b) == -lex_order(b, a),
        lex_order(a, a) == 0,
        -1 <= lex_order(a, b) <= 1,
    decreases a.len(),
{
    if a.len() > 0 {
        if b.len() > 0 {
            lemma_lex_order_swap(a.drop_first(), b.drop_first());
            if a[0] != b[0] {
                char_u32_cast(a[0], a[0] as u32);
                char_u32_cast(b[0], b[0] as u32);
            }
        }
        lemma_lex_order_swap(a.drop_first(), a.drop_first());
    }
}

/// `l > r` is `r < l` and `l >= r` is `r <= l`, for every pair of values:
/// both succeed with the same answer or both fail with the same message.
pub proof fn law_comparison_converse(l: ValueV, r: ValueV)
    ensures
        binop(BinOp::Gt, l, r) == binop(BinOp::Lt, r, l),
        binop(BinOp::Ge, l, r) == binop(BinOp::Le, r, l),
{
    match (l, r) {
        (ValueV::Str(a), ValueV::Str(b)) => {
            lemma_lex_order_swap(a, b);
        },
        _ => {},
    }
}

/// No value is greater or less than itself: where a value can be
/// compared with itself at all, `v > v` and `v < v` are false and
/// `v >= v` and `v <= v` are true.
pub proof fn law_comparison_irreflexive(v: ValueV)
    ensures
        binop(BinOp::Gt, v, v) is Ok ==> binop(BinOp::Gt, v, v) == Ok::<ValueV, Seq<char>>(ValueV::Bool(false)),
        binop(BinOp::Lt, v, v) is Ok ==> binop(BinOp::Lt, v, v) == Ok::<ValueV, Seq<char>>(ValueV::Bool(false)),
        binop(BinOp::Ge, v, v) is Ok ==> binop(BinOp::Ge, v, v) == Ok::<ValueV, Seq<char>>(ValueV::Bool(true)),
        binop(BinOp::Le, v, v) is Ok ==> binop(BinOp::Le, v, v) == Ok::<ValueV, Seq<char>>(ValueV::Bool(true)),
{
    match v {
        ValueV::Str(a) => {
            lemma_lex_order_swap(a, a);
        },
        _ => {},
    }
}

} // verus!
