use vstd::prelude::*;

verus! {

/// The mathematical model of a MessagePack value.
pub enum Val {
    Nil,
    Bool(bool),
    Int(int),
    /// A 32-bit float, by its IEEE 754 bits.
    F32(u32),
    /// A 64-bit float, by its IEEE 754 bits.
    F64(u64),
    Str(Seq<u8>),
    Bin(Seq<u8>),
    Arr(Seq<Val>),
    /// A map, as its key-value pairs in wire order.
    Dict(Seq<(Val, Val)>),
    /// An extension: its type tag (an `i8`) and its data.
    Ext(int, Seq<u8>),
}

/// A dynamically typed MessagePack value. Strings are kept as their UTF-8
/// bytes, as they travel on the wire.
#[derive(Debug, PartialEq, Eq)]
pub enum Value {
    Nil,
    Boolean(bool),
    Integer(i128),
    /// A 32-bit float, by its IEEE 754 bits.
    Float32(u32),
    /// A 64-bit float, by its IEEE 754 bits.
    Float64(u64),
    String(Vec<u8>),
    Binary(Vec<u8>),
    Array(Vec<Value>),
    /// A map, as its key-value pairs in wire order.
    Dict(Vec<(Value, Value)>),
    /// An extension: its type tag and its data.
    Ext(i8, Vec<u8>),
}

/// 2^32: the bound on the length of a string, a binary or an array.
pub open spec fn len_limit() -> nat {
    0x1_0000_0000
}

/// The integers that MessagePack can carry: those of `i64` and of `u64`.
pub open spec fn int_fits(x: int) -> bool {
    -0x8000_0000_0000_0000 <= x < 0x1_0000_0000_0000_0000
}

/// A value that the wire format can hold.
pub open spec fn wf_val(v: Val) -> bool
    decreases v, 0nat,
{
    match v {
        Val::Nil => true,
        Val::Bool(_) => true,
        Val::Int(x) => int_fits(x),
        Val::F32(_) => true,
        Val::F64(_) => true,
        Val::Ext(t, d) => -128 <= t < 128 && d.len() < len_limit(),
        Val::Str(s) => s.len() < len_limit(),
        Val::Bin(s) => s.len() < len_limit(),
        Val::Arr(vs) => vs.len() < len_limit() && wf_upto(vs, vs.len()),
        Val::Dict(kvs) => kvs.len() < len_limit() && wf_pairs(kvs, kvs.len()),
    }
}

/// The first `n` pairs of `kvs` can all be written.
pub open spec fn wf_pairs(kvs: Seq<(Val, Val)>, n: nat) -> bool
    decreases kvs, n + 1,
{
    if n == 0 {
        true
    } else if n > kvs.len() {
        false
    } else {
        wf_pairs(kvs, (n - 1) as nat) && wf_val(kvs[n - 1].0) && wf_val(kvs[n - 1].1)
    }
}

/// Each of the first `n` pairs of a well-formed prefix can be written.
pub proof fn lemma_wf_pairs(kvs: Seq<(Val, Val)>, n: nat, i: int)
    requires
        wf_pairs(kvs, n),
        0 <= i < n,
    ensures
        wf_val(kvs[i].0),
        wf_val(kvs[i].1),
    decreases n,
{
    if i < n - 1 {
        lemma_wf_pairs(kvs, (n - 1) as nat, i);
    }
}

/// The first `n` values of `vs` can all be written.
pub open spec fn wf_upto(vs: Seq<Val>, n: nat) -> bool
    decreases vs, n + 1,
{
    if n == 0 {
        true
    } else if n > vs.len() {
        false
    } else {
        wf_upto(vs, (n - 1) as nat) && wf_val(vs[n - 1])
    }
}

/// Each of the first `n` values of a well-formed prefix can be written.
pub proof fn lemma_wf_upto(vs: Seq<Val>, n: nat, i: int)
    requires
        wf_upto(vs, n),
        0 <= i < n,
    ensures
        wf_val(vs[i]),
    decreases n,
{
    if i < n - 1 {
        lemma_wf_upto(vs, (n - 1) as nat, i);
    }
}

impl View for Value {
    type V = Val;

    open spec fn view(&self) -> Val
        decreases self,
    {
        match self {
            Value::Nil => Val::Nil,
            Value::Boolean(b) => Val::Bool(*b),
            Value::Integer(x) => Val::Int(*x as int),
            Value::Float32(b) => Val::F32(*b),
            Value::Float64(b) => Val::F64(*b),
            Value::Ext(t, d) => Val::Ext(*t as int, d@),
            Value::String(s) => Val::Str(s@),
            Value::Binary(s) => Val::Bin(s@),
            Value::Array(a) => Val::Arr(
                Seq::new(a@.len(), |i: int| if 0 <= i < a@.len() { a@[i].view() } else { Val::Nil }),
            ),
            Value::Dict(m) => Val::Dict(
                Seq::new(
                    m@.len(),
                    |i: int|
                        if 0 <= i < m@.len() {
                            (m@[i].0.view(), m@[i].1.view())
                        } else {
                            (Val::Nil, Val::Nil)
                        },
                ),
            ),
        }
    }
}

/// Whether the wire format can hold `v`: integers of `i64` or `u64`, and
/// strings, binaries and arrays below 2^32 items.
pub fn fits(v: &Value) -> (r: bool)
    ensures
        r == wf_val(v@),
    decreases v,
{
    match v {
        Value::Nil => true,
        Value::Boolean(_) => true,
        Value::Integer(x) => -0x8000_0000_0000_0000 <= *x && *x < 0x1_0000_0000_0000_0000,
        Value::Float32(_) => true,
        Value::Float64(_) => true,
        Value::Ext(_, d) => (d.len() as u64) < 0x1_0000_0000,
        Value::String(s) => (s.len() as u64) < 0x1_0000_0000,
        Value::Binary(s) => (s.len() as u64) < 0x1_0000_0000,
        Value::Dict(m) => {
            proof {
                lemma_view_map(*m);
            }
            let ghost kvs = v@->Dict_0;
            if (m.len() as u64) >= 0x1_0000_0000 {
                return false;
            }
            let mut i: usize = 0;
            while i < m.len()
                invariant
                    i <= m@.len() == kvs.len(),
                    *v == Value::Dict(*m),
                    kvs == v@->Dict_0,
                    forall|j: int| 0 <= j < m@.len() ==> #[trigger] kvs[j] == (m@[j].0@, m@[j].1@),
                    wf_pairs(kvs, i as nat),
                decreases m@.len() - i,
            {
                proof {
                    assert(decreases_to!(*v => m@[i as int].0));
                    assert(decreases_to!(*v => m@[i as int].1));
                }
                if !fits(&m[i].0) || !fits(&m[i].1) {
                    proof {
                        if wf_pairs(kvs, kvs.len()) {
                            lemma_wf_pairs(kvs, kvs.len(), i as int);
                        }
                    }
                    return false;
                }
                i = i + 1;
            }
            true
        },
        Value::Array(a) => {
            proof {
                lemma_view_array(*a);
            }
            let ghost vs = v@->Arr_0;
            if (a.len() as u64) >= 0x1_0000_0000 {
                return false;
            }
            let mut i: usize = 0;
            while i < a.len()
                invariant
                    i <= a@.len() == vs.len(),
                    *v == Value::Array(*a),
                    vs == v@->Arr_0,
                    forall|j: int| 0 <= j < a@.len() ==> #[trigger] vs[j] == a@[j]@,
                    wf_upto(vs, i as nat),
                decreases a@.len() - i,
            {
                proof {
                    assert(decreases_to!(*v => a@[i as int]));
                }
                if !fits(&a[i]) {
                    proof {
                        if wf_upto(vs, vs.len()) {
                            lemma_wf_upto(vs, vs.len(), i as int);
                        }
                    }
                    return false;
                }
                i = i + 1;
            }
            true
        },
    }
}

/// The models of a sequence of values.
pub open spec fn view_all(a: Seq<Value>) -> Seq<Val> {
    Seq::new(a.len(), |i: int| a[i]@)
}

/// The models of a sequence of pairs of values.
pub open spec fn view_pairs(m: Seq<(Value, Value)>) -> Seq<(Val, Val)> {
    Seq::new(m.len(), |i: int| (m[i].0@, m[i].1@))
}

/// The model of a map is the sequence of the models of its pairs.
pub proof fn lemma_view_map(m: Vec<(Value, Value)>)
    ensures
        Value::Dict(m)@ == Val::Dict(view_pairs(m@)),
{
    let v = Value::Dict(m);
    reveal_with_fuel(<Value as View>::view, 2);
    assert(v@->Dict_0.len() == m@.len());
    assert forall|i: int| 0 <= i < m@.len() implies #[trigger] v@->Dict_0[i] == (m@[i].0@, m@[i].1@) by {}
    assert(v@->Dict_0 =~= view_pairs(m@));
}

/// The model of an array is the array of the models of its items.
pub proof fn lemma_view_array(a: Vec<Value>)
    ensures
        Value::Array(a)@ == Val::Arr(view_all(a@)),
{
    let v = Value::Array(a);
    reveal_with_fuel(<Value as View>::view, 2);
    assert(v@->Arr_0.len() == a@.len());
    assert forall|i: int| 0 <= i < a@.len() implies #[trigger] v@->Arr_0[i] == a@[i]@ by {}
    assert(v@->Arr_0 =~= view_all(a@));
}

} // verus!
