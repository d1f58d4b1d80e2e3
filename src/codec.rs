use vstd::prelude::*;

use crate::value::{
    Val, Value, int_fits, lemma_view_array, lemma_view_map, lemma_wf_pairs, lemma_wf_upto,
    view_all, view_pairs, wf_pairs, wf_upto, wf_val,
};

verus! {

/// 256 to the power `k`.
pub open spec fn pow256(k: nat) -> nat
    decreases k,
{
    if k == 0 {
        1
    } else {
        256 * pow256((k - 1) as nat)
    }
}

/// The number written big-endian in the `k` bytes of `s` from `p`.
pub open spec fn be(s: Seq<u8>, p: nat, k: nat) -> nat
    decreases k,
{
    if k == 0 {
        0
    } else {
        be(s, p, (k - 1) as nat) * 256 + s[p + k - 1] as nat
    }
}

/// `x` written big-endian in `k` bytes (its low `k` bytes).
pub open spec fn be_bytes(x: nat, k: nat) -> Seq<u8>
    decreases k,
{
    if k == 0 {
        Seq::empty()
    } else {
        be_bytes(x / 256, (k - 1) as nat).push((x % 256) as u8)
    }
}

/// The header of a string: fixstr below 32 bytes, str32 above.
pub open spec fn str_header(n: nat) -> Seq<u8> {
    if n < 32 {
        seq![(0xa0 + n) as u8]
    } else {
        seq![0xdbu8] + be_bytes(n, 4)
    }
}

/// The header of an array: fixarray below 16 items, array32 above.
pub open spec fn arr_header(n: nat) -> Seq<u8> {
    if n < 16 {
        seq![(0x90 + n) as u8]
    } else {
        seq![0xddu8] + be_bytes(n, 4)
    }
}

/// The header of a map: fixmap below 16 pairs, map32 above.
pub open spec fn map_header(n: nat) -> Seq<u8> {
    if n < 16 {
        seq![(0x80 + n) as u8]
    } else {
        seq![0xdfu8] + be_bytes(n, 4)
    }
}

/// The encoding of an integer in its shortest common form.
pub open spec fn enc_int(x: int) -> Seq<u8> {
    if 0 <= x < 128 {
        seq![x as u8]
    } else if x >= 128 {
        seq![0xcfu8] + be_bytes(x as nat, 8)
    } else if x >= -32 {
        seq![(x + 256) as u8]
    } else {
        seq![0xd3u8] + be_bytes((x + pow256(8)) as nat, 8)
    }
}

/// The byte of an extension's type tag.
pub open spec fn tag_byte(t: int) -> u8 {
    if t < 0 {
        (t + 256) as u8
    } else {
        t as u8
    }
}

/// The bytes that this library writes for a value.
pub open spec fn enc(v: Val) -> Seq<u8>
    decreases v, 0nat,
{
    match v {
        Val::Nil => seq![0xc0u8],
        Val::Bool(b) => if b {
            seq![0xc3u8]
        } else {
            seq![0xc2u8]
        },
        Val::Int(x) => enc_int(x),
        Val::F32(b) => seq![0xcau8] + be_bytes(b as nat, 4),
        Val::F64(b) => seq![0xcbu8] + be_bytes(b as nat, 8),
        Val::Ext(t, d) => seq![0xc9u8] + be_bytes(d.len(), 4) + seq![tag_byte(t)] + d,
        Val::Str(s) => str_header(s.len()) + s,
        Val::Bin(s) => seq![0xc6u8] + be_bytes(s.len(), 4) + s,
        Val::Arr(vs) => arr_header(vs.len()) + enc_upto(vs, vs.len()),
        Val::Dict(kvs) => map_header(kvs.len()) + enc_pairs(kvs, kvs.len()),
    }
}

/// The encodings of the first `n` pairs of `kvs`, each key before its value.
pub open spec fn enc_pairs(kvs: Seq<(Val, Val)>, n: nat) -> Seq<u8>
    decreases kvs, n + 1,
{
    if n == 0 || n > kvs.len() {
        Seq::empty()
    } else {
        enc_pairs(kvs, (n - 1) as nat) + enc(kvs[n - 1].0) + enc(kvs[n - 1].1)
    }
}

/// The encodings of the first `n` values of `vs`, one after the other.
pub open spec fn enc_upto(vs: Seq<Val>, n: nat) -> Seq<u8>
    decreases vs, n + 1,
{
    if n == 0 || n > vs.len() {
        Seq::empty()
    } else {
        enc_upto(vs, (n - 1) as nat) + enc(vs[n - 1])
    }
}

/// The outcome of reading one item from the bytes at a position.
pub enum Parsed<T> {
    /// The item, and the position just after it.
    Done(T, nat),
    /// The bytes end before the item does: more must be read.
    Short,
    /// The bytes are no MessagePack.
    Bad,
}

/// The width of the number that follows a prefix byte of the form
/// `base`, `base + 1`, `base + 2`, `base + 3`: 1, 2, 4 or 8 bytes.
pub open spec fn width(b: u8, base: u8) -> nat {
    if b == base {
        1
    } else if b == base + 1 {
        2
    } else if b == base + 2 {
        4
    } else {
        8
    }
}

/// A `k`-byte two's complement number.
pub open spec fn signed(u: nat, k: nat) -> int {
    if u >= pow256(k) / 2 {
        u - pow256(k)
    } else {
        u as int
    }
}

/// The length prefix of a str8/16/32, bin8/16/32 or array16/32 header, or
/// `None` where the byte is no such header. The result is the width of the
/// length and the kind: 0 string, 1 binary, 2 array, 3 map.
pub open spec fn sized_header(b: u8) -> Option<(nat, nat)> {
    if b == 0xd9 {
        Some((1, 0))
    } else if b == 0xda {
        Some((2, 0))
    } else if b == 0xdb {
        Some((4, 0))
    } else if b == 0xc4 {
        Some((1, 1))
    } else if b == 0xc5 {
        Some((2, 1))
    } else if b == 0xc6 {
        Some((4, 1))
    } else if b == 0xdc {
        Some((2, 2))
    } else if b == 0xdd {
        Some((4, 2))
    } else if b == 0xde {
        Some((2, 3))
    } else if b == 0xdf {
        Some((4, 3))
    } else {
        None
    }
}

/// Reads the `n` raw bytes from `p` as a string (kind 0) or a binary.
pub open spec fn parse_raw(s: Seq<u8>, p: nat, n: nat, kind: nat) -> Parsed<Val> {
    if p + n > s.len() {
        Parsed::Short
    } else if kind == 0 {
        Parsed::Done(Val::Str(s.subrange(p as int, (p + n) as int)), p + n)
    } else {
        Parsed::Done(Val::Bin(s.subrange(p as int, (p + n) as int)), p + n)
    }
}

/// The data length of a fixext prefix byte: 1, 2, 4, 8 or 16.
pub open spec fn fixext_len(b: u8) -> nat {
    if b == 0xd4 {
        1
    } else if b == 0xd5 {
        2
    } else if b == 0xd6 {
        4
    } else if b == 0xd7 {
        8
    } else {
        16
    }
}

/// Reads an extension's type byte at `p` and its `n` data bytes after it.
pub open spec fn parse_ext(s: Seq<u8>, p: nat, n: nat) -> Parsed<Val> {
    if p + 1 + n > s.len() {
        Parsed::Short
    } else {
        Parsed::Done(
            Val::Ext(signed(s[p as int] as nat, 1), s.subrange((p + 1) as int, (p + 1 + n) as int)),
            p + 1 + n,
        )
    }
}

/// Reads one value from the bytes `s` at position `p`.
pub open spec fn parse_at(s: Seq<u8>, p: nat) -> Parsed<Val>
    decreases s.len() - p, 0nat,
{
    if p >= s.len() {
        Parsed::Short
    } else {
        let b = s[p as int];
        if b <= 0x7f {
            Parsed::Done(Val::Int(b as int), p + 1)
        } else if b >= 0xe0 {
            Parsed::Done(Val::Int(b - 256), p + 1)
        } else if b == 0xc0 {
            Parsed::Done(Val::Nil, p + 1)
        } else if b == 0xc2 {
            Parsed::Done(Val::Bool(false), p + 1)
        } else if b == 0xc3 {
            Parsed::Done(Val::Bool(true), p + 1)
        } else if 0xcc <= b <= 0xcf {
            let k = width(b, 0xcc);
            if p + 1 + k > s.len() {
                Parsed::Short
            } else {
                Parsed::Done(Val::Int(be(s, p + 1, k) as int), p + 1 + k)
            }
        } else if 0xd0 <= b <= 0xd3 {
            let k = width(b, 0xd0);
            if p + 1 + k > s.len() {
                Parsed::Short
            } else {
                Parsed::Done(Val::Int(signed(be(s, p + 1, k), k)), p + 1 + k)
            }
        } else if b == 0xca || b == 0xcb {
            let k: nat = if b == 0xca { 4 } else { 8 };
            if p + 1 + k > s.len() {
                Parsed::Short
            } else if b == 0xca {
                Parsed::Done(Val::F32(be(s, p + 1, 4) as u32), p + 5)
            } else {
                Parsed::Done(Val::F64(be(s, p + 1, 8) as u64), p + 9)
            }
        } else if 0xd4 <= b <= 0xd8 {
            parse_ext(s, p + 1, fixext_len(b))
        } else if 0xc7 <= b <= 0xc9 {
            let k = width(b, 0xc7);
            if p + 1 + k > s.len() {
                Parsed::Short
            } else {
                parse_ext(s, p + 1 + k, be(s, p + 1, k))
            }
        } else if 0xa0 <= b <= 0xbf {
            parse_raw(s, p + 1, (b - 0xa0) as nat, 0)
        } else if 0x90 <= b <= 0x9f {
            match parse_items(s, p + 1, (b - 0x90) as nat) {
                Parsed::Done(vs, e) => Parsed::Done(Val::Arr(vs), e),
                Parsed::Short => Parsed::Short,
                Parsed::Bad => Parsed::Bad,
            }
        } else if 0x80 <= b <= 0x8f {
            match parse_pairs(s, p + 1, (b - 0x80) as nat) {
                Parsed::Done(kvs, e) => Parsed::Done(Val::Dict(kvs), e),
                Parsed::Short => Parsed::Short,
                Parsed::Bad => Parsed::Bad,
            }
        } else if let Some((k, kind)) = sized_header(b) {
            if p + 1 + k > s.len() {
                Parsed::Short
            } else {
                let n = be(s, p + 1, k);
                if kind < 2 {
                    parse_raw(s, p + 1 + k, n, kind)
                } else if kind == 2 {
                    match parse_items(s, p + 1 + k, n) {
                        Parsed::Done(vs, e) => Parsed::Done(Val::Arr(vs), e),
                        Parsed::Short => Parsed::Short,
                        Parsed::Bad => Parsed::Bad,
                    }
                } else {
                    match parse_pairs(s, p + 1 + k, n) {
                        Parsed::Done(kvs, e) => Parsed::Done(Val::Dict(kvs), e),
                        Parsed::Short => Parsed::Short,
                        Parsed::Bad => Parsed::Bad,
                    }
                }
            }
        } else {
            Parsed::Bad
        }
    }
}

/// Reads `n` key-value pairs one after the other from position `p`.
pub open spec fn parse_pairs(s: Seq<u8>, p: nat, n: nat) -> Parsed<Seq<(Val, Val)>>
    decreases s.len() - p, n + 1,
{
    if n == 0 {
        Parsed::Done(Seq::empty(), p)
    } else if p > s.len() {
        Parsed::Short
    } else {
        match parse_at(s, p) {
            Parsed::Done(k, q) => if q <= p || q > s.len() {
                Parsed::Bad
            } else {
                match parse_at(s, q) {
                    Parsed::Done(v, r) => if r <= q || r > s.len() {
                        Parsed::Bad
                    } else {
                        match parse_pairs(s, r, (n - 1) as nat) {
                            Parsed::Done(kvs, e) => Parsed::Done(seq![(k, v)] + kvs, e),
                            Parsed::Short => Parsed::Short,
                            Parsed::Bad => Parsed::Bad,
                        }
                    },
                    Parsed::Short => Parsed::Short,
                    Parsed::Bad => Parsed::Bad,
                }
            },
            Parsed::Short => Parsed::Short,
            Parsed::Bad => Parsed::Bad,
        }
    }
}

/// Reads `n` values one after the other from position `p`.
pub open spec fn parse_items(s: Seq<u8>, p: nat, n: nat) -> Parsed<Seq<Val>>
    decreases s.len() - p, n + 1,
{
    if n == 0 {
        Parsed::Done(Seq::empty(), p)
    } else if p > s.len() {
        Parsed::Short
    } else {
        match parse_at(s, p) {
            Parsed::Done(v, q) => if q <= p || q > s.len() {
                Parsed::Bad
            } else {
                match parse_items(s, q, (n - 1) as nat) {
                    Parsed::Done(vs, e) => Parsed::Done(seq![v] + vs, e),
                    Parsed::Short => Parsed::Short,
                    Parsed::Bad => Parsed::Bad,
                }
            },
            Parsed::Short => Parsed::Short,
            Parsed::Bad => Parsed::Bad,
        }
    }
}

/// Appends `x` to `out`, big-endian in `k` bytes.
fn push_be(out: &mut Vec<u8>, x: u64, k: usize)
    requires
        k <= 8,
    ensures
        final(out)@ == old(out)@ + be_bytes(x as nat, k as nat),
    decreases k,
{
    if k > 0 {
        push_be(out, x / 256, k - 1);
        out.push((x % 256) as u8);
    }
}

/// Appends the bytes of `d` to `out`.
fn push_all(out: &mut Vec<u8>, d: &Vec<u8>)
    ensures
        final(out)@ == old(out)@ + d@,
{
    let mut i: usize = 0;
    let ghost base = out@;
    while i < d.len()
        invariant
            i <= d@.len(),
            out@ == base + d@.subrange(0, i as int),
        decreases d@.len() - i,
    {
        out.push(d[i]);
        i = i + 1;
        assert(out@ =~= base + d@.subrange(0, i as int));
    }
    assert(d@.subrange(0, d@.len() as int) =~= d@);
}

/// Appends the encoding of `v` to `out`.
pub fn encode_into(v: &Value, out: &mut Vec<u8>)
    requires
        wf_val(v@),
    ensures
        final(out)@ == old(out)@ + enc(v@),
    decreases v,
{
    match v {
        Value::Nil => out.push(0xc0),
        Value::Boolean(b) => out.push(if *b { 0xc3 } else { 0xc2 }),
        Value::Integer(x) => {
            let x = *x;
            if 0 <= x && x < 128 {
                out.push(x as u8);
            } else if x >= 128 {
                out.push(0xcf);
                push_be(out, x as u64, 8);
            } else if x >= -32 {
                out.push((x + 256) as u8);
            } else {
                out.push(0xd3);
                proof {
                    reveal_with_fuel(pow256, 9);
                }
                push_be(out, (x + 0x1_0000_0000_0000_0000) as u64, 8);
            }
        },
        Value::Float32(b) => {
            out.push(0xca);
            push_be(out, *b as u64, 4);
        },
        Value::Float64(b) => {
            out.push(0xcb);
            push_be(out, *b, 8);
        },
        Value::Ext(t, d) => {
            out.push(0xc9);
            push_be(out, d.len() as u64, 4);
            out.push(if *t < 0 { (*t as i16 + 256) as u8 } else { *t as u8 });
            push_all(out, d);
        },
        Value::String(s) => {
            let n = s.len();
            if n < 32 {
                out.push((0xa0 + n) as u8);
            } else {
                out.push(0xdb);
                push_be(out, n as u64, 4);
            }
            push_all(out, s);
        },
        Value::Binary(s) => {
            out.push(0xc6);
            push_be(out, s.len() as u64, 4);
            push_all(out, s);
        },
        Value::Dict(m) => {
            let n = m.len();
            proof {
                lemma_view_map(*m);
            }
            let ghost kvs = v@->Dict_0;
            if n < 16 {
                out.push((0x80 + n) as u8);
            } else {
                out.push(0xdf);
                push_be(out, n as u64, 4);
            }
            let mut i: usize = 0;
            let ghost base = out@;
            while i < n
                invariant
                    i <= n == m@.len() == kvs.len(),
                    kvs == v@->Dict_0,
                    wf_val(v@),
                    v@ == Val::Dict(kvs),
                    *v == Value::Dict(*m),
                    forall|j: int| 0 <= j < n ==> #[trigger] kvs[j] == (m@[j].0@, m@[j].1@),
                    out@ == base + enc_pairs(kvs, i as nat),
                decreases n - i,
            {
                proof {
                    lemma_wf_pairs(kvs, n as nat, i as int);
                    assert(decreases_to!(*v => m@[i as int].0));
                    assert(decreases_to!(*v => m@[i as int].1));
                }
                encode_into(&m[i].0, out);
                encode_into(&m[i].1, out);
                i = i + 1;
            }
        },
        Value::Array(a) => {
            let n = a.len();
            proof {
                lemma_view_array(*a);
            }
            let ghost vs = v@->Arr_0;
            if n < 16 {
                out.push((0x90 + n) as u8);
            } else {
                out.push(0xdd);
                push_be(out, n as u64, 4);
            }
            let mut i: usize = 0;
            let ghost base = out@;
            while i < n
                invariant
                    i <= n == a@.len() == vs.len(),
                    vs == v@->Arr_0,
                    wf_val(v@),
                    v@ == Val::Arr(vs),
                    *v == Value::Array(*a),
                    forall|j: int| 0 <= j < n ==> #[trigger] vs[j] == a@[j]@,
                    out@ == base + enc_upto(vs, i as nat),
                decreases n - i,
            {
                proof {
                    lemma_wf_upto(vs, n as nat, i as int);
                    assert(decreases_to!(*v => a@[i as int]));
                }
                encode_into(&a[i], out);
                i = i + 1;
            }
        },
    }
}

/// The encoding of `v`.
pub fn encode_value(v: &Value) -> (r: Vec<u8>)
    requires
        wf_val(v@),
    ensures
        r@ == enc(v@),
{
    let mut out: Vec<u8> = Vec::new();
    encode_into(v, &mut out);
    assert(out@ == Seq::<u8>::empty() + enc(v@));
    out
}

/// The outcome of decoding one item from a buffer at a position.
#[derive(Debug, PartialEq, Eq)]
pub enum Decoded<T> {
    /// The item, and the position just after it.
    Done(T, usize),
    /// The buffer ends before the item does: more bytes must be read.
    Incomplete,
    /// The bytes are malformed.
    Malformed,
}

/// `r` is the executable form of the modelled outcome `p`.
pub open spec fn decoded_value_is(r: Decoded<Value>, p: Parsed<Val>) -> bool {
    match r {
        Decoded::Done(v, e) => p == Parsed::Done(v@, e as nat),
        Decoded::Incomplete => p is Short,
        Decoded::Malformed => p is Bad,
    }
}

/// `acc` put in front of the values of an outcome.
pub open spec fn prepend(acc: Seq<Val>, r: Parsed<Seq<Val>>) -> Parsed<Seq<Val>> {
    match r {
        Parsed::Done(vs, e) => Parsed::Done(acc + vs, e),
        Parsed::Short => Parsed::Short,
        Parsed::Bad => Parsed::Bad,
    }
}

/// A big-endian number is below 256 to the power of its width.
pub proof fn lemma_be_bound(s: Seq<u8>, p: nat, k: nat)
    ensures
        be(s, p, k) < pow256(k),
    decreases k,
{
    if k > 0 {
        lemma_be_bound(s, p, (k - 1) as nat);
        let a = be(s, p, (k - 1) as nat);
        let m = pow256((k - 1) as nat);
        let b = s[p + k - 1] as nat;
        assert(a * 256 + b < m * 256) by (nonlinear_arith)
            requires
                a < m,
                b < 256,
        ;
    }
}

/// Powers of 256 grow with the exponent.
pub proof fn lemma_pow256_mono(i: nat, j: nat)
    requires
        i <= j,
    ensures
        pow256(i) <= pow256(j),
    decreases j,
{
    if i < j {
        lemma_pow256_mono(i, (j - 1) as nat);
    }
}

/// Reads the number written big-endian in the `k` bytes of `buf` from `p`.
fn read_be(buf: &Vec<u8>, p: usize, k: usize) -> (r: u64)
    requires
        k <= 8,
        p + k <= buf@.len(),
    ensures
        r as nat == be(buf@, p as nat, k as nat),
{
    let len = buf.len();
    let mut acc: u64 = 0;
    let mut i: usize = 0;
    proof {
        reveal_with_fuel(pow256, 9);
    }
    while i < k
        invariant
            i <= k <= 8,
            p + k <= buf@.len() <= usize::MAX,
            acc as nat == be(buf@, p as nat, i as nat),
            pow256(8) == 0x1_0000_0000_0000_0000,
        decreases k - i,
    {
        proof {
            lemma_be_bound(buf@, p as nat, (i + 1) as nat);
            lemma_pow256_mono((i + 1) as nat, 8);
        }
        acc = acc * 256 + buf[p + i] as u64;
        i = i + 1;
    }
    acc
}

/// The width of the number that follows a prefix byte.
fn width_of(b: u8, base: u8) -> (r: usize)
    requires
        base <= b <= base + 3,
    ensures
        r as nat == width(b, base),
        r <= 8,
{
    if b == base {
        1
    } else if b == base + 1 {
        2
    } else if b == base + 2 {
        4
    } else {
        8
    }
}

/// The length prefix of a sized header, as in `sized_header`.
fn sized_header_of(b: u8) -> (r: Option<(usize, u8)>)
    ensures
        match r {
            Some((k, kind)) => sized_header(b) == Some((k as nat, kind as nat)),
            None => sized_header(b) is None,
        },
        r matches Some((k, kind)) ==> k <= 4 && kind <= 3,
{
    if b == 0xd9 {
        Some((1, 0))
    } else if b == 0xda {
        Some((2, 0))
    } else if b == 0xdb {
        Some((4, 0))
    } else if b == 0xc4 {
        Some((1, 1))
    } else if b == 0xc5 {
        Some((2, 1))
    } else if b == 0xc6 {
        Some((4, 1))
    } else if b == 0xdc {
        Some((2, 2))
    } else if b == 0xdd {
        Some((4, 2))
    } else if b == 0xde {
        Some((2, 3))
    } else if b == 0xdf {
        Some((4, 3))
    } else {
        None
    }
}

/// A copy of the `n` bytes of `buf` from `p`.
fn copy_range(buf: &Vec<u8>, p: usize, n: usize) -> (r: Vec<u8>)
    requires
        p + n <= buf@.len(),
    ensures
        r@ == buf@.subrange(p as int, p + n),
{
    let len = buf.len();
    let mut bytes: Vec<u8> = Vec::new();
    let mut i: usize = 0;
    while i < n
        invariant
            i <= n,
            p + n <= buf@.len() <= usize::MAX,
            bytes@ == buf@.subrange(p as int, p + i),
        decreases n - i,
    {
        bytes.push(buf[p + i]);
        i = i + 1;
        assert(bytes@ =~= buf@.subrange(p as int, p + i));
    }
    bytes
}

/// Copies the `n` raw bytes from `p` into a string (kind 0) or a binary.
fn decode_raw(buf: &Vec<u8>, p: usize, n: u64, kind: u8) -> (r: Decoded<Value>)
    requires
        p <= buf@.len(),
    ensures
        decoded_value_is(r, parse_raw(buf@, p as nat, n as nat, kind as nat)),
        r matches Decoded::Done(_, e) ==> p <= e <= buf@.len(),
{
    if n > (buf.len() - p) as u64 {
        return Decoded::Incomplete;
    }
    let n = n as usize;
    let bytes = copy_range(buf, p, n);
    if kind == 0 {
        Decoded::Done(Value::String(bytes), p + n)
    } else {
        Decoded::Done(Value::Binary(bytes), p + n)
    }
}

/// Decodes an extension: its type byte at `p` and `n` data bytes after it.
fn decode_ext(buf: &Vec<u8>, p: usize, n: u64) -> (r: Decoded<Value>)
    requires
        p <= buf@.len(),
    ensures
        decoded_value_is(r, parse_ext(buf@, p as nat, n as nat)),
        r matches Decoded::Done(_, e) ==> p <= e <= buf@.len(),
{
    if p >= buf.len() || n > (buf.len() - p - 1) as u64 {
        return Decoded::Incomplete;
    }
    let n = n as usize;
    let b = buf[p];
    let t: i8 = if b >= 128 { (b as i16 - 256) as i8 } else { b as i8 };
    proof {
        reveal_with_fuel(pow256, 2);
    }
    let d = copy_range(buf, p + 1, n);
    Decoded::Done(Value::Ext(t, d), p + 1 + n)
}

/// Decodes `n` values one after the other from `p`, into an array.
fn decode_items(buf: &Vec<u8>, p: usize, n: u64) -> (r: Decoded<Value>)
    requires
        p <= buf@.len(),
    ensures
        decoded_value_is(
            r,
            match parse_items(buf@, p as nat, n as nat) {
                Parsed::Done(vs, e) => Parsed::Done(Val::Arr(vs), e),
                Parsed::Short => Parsed::Short,
                Parsed::Bad => Parsed::Bad,
            },
        ),
        r matches Decoded::Done(_, e) ==> p <= e <= buf@.len(),
    decreases buf@.len() - p, 1nat,
{
    let ghost s = buf@;
    let mut items: Vec<Value> = Vec::new();
    let ghost mut acc: Seq<Val> = Seq::empty();
    let mut i: u64 = 0;
    let mut q: usize = p;
    assert(prepend(acc, parse_items(s, p as nat, n as nat)) =~= parse_items(s, p as nat, n as nat)) by {
        match parse_items(s, p as nat, n as nat) {
            Parsed::Done(vs, e) => assert(acc + vs =~= vs),
            _ => {},
        }
    }
    while i < n
        invariant
            s == buf@,
            i <= n,
            p <= q <= s.len(),
            items@.len() == acc.len(),
            forall|j: int| 0 <= j < acc.len() ==> #[trigger] acc[j] == items@[j]@,
            parse_items(s, p as nat, n as nat) == prepend(acc, parse_items(s, q as nat, (n - i) as nat)),
        decreases n - i,
    {
        let r = decode_at(buf, q);
        match r {
            Decoded::Done(v, e) => {
                if e <= q || e > buf.len() {
                    return Decoded::Malformed;
                }
                proof {
                    let rest = parse_items(s, e as nat, (n - i - 1) as nat);
                    match rest {
                        Parsed::Done(vs, f) => assert(acc + (seq![v@] + vs) =~= acc.push(v@) + vs),
                        _ => {},
                    }
                    acc = acc.push(v@);
                }
                items.push(v);
                q = e;
                i = i + 1;
            },
            Decoded::Incomplete => return Decoded::Incomplete,
            Decoded::Malformed => return Decoded::Malformed,
        }
    }
    assert(acc + Seq::<Val>::empty() =~= acc);
    proof {
        lemma_view_array(items);
        assert(view_all(items@) =~= acc);
    }
    let r = Value::Array(items);
    Decoded::Done(r, q)
}

/// `acc` put in front of the pairs of an outcome.
pub open spec fn prepend_pairs(acc: Seq<(Val, Val)>, r: Parsed<Seq<(Val, Val)>>) -> Parsed<
    Seq<(Val, Val)>,
> {
    match r {
        Parsed::Done(kvs, e) => Parsed::Done(acc + kvs, e),
        Parsed::Short => Parsed::Short,
        Parsed::Bad => Parsed::Bad,
    }
}

/// Decodes `n` key-value pairs one after the other from `p`, into a map.
fn decode_pairs(buf: &Vec<u8>, p: usize, n: u64) -> (r: Decoded<Value>)
    requires
        p <= buf@.len(),
    ensures
        decoded_value_is(
            r,
            match parse_pairs(buf@, p as nat, n as nat) {
                Parsed::Done(kvs, e) => Parsed::Done(Val::Dict(kvs), e),
                Parsed::Short => Parsed::Short,
                Parsed::Bad => Parsed::Bad,
            },
        ),
        r matches Decoded::Done(_, e) ==> p <= e <= buf@.len(),
    decreases buf@.len() - p, 1nat,
{
    let ghost s = buf@;
    let mut pairs: Vec<(Value, Value)> = Vec::new();
    let ghost mut acc: Seq<(Val, Val)> = Seq::empty();
    let mut i: u64 = 0;
    let mut q: usize = p;
    assert(prepend_pairs(acc, parse_pairs(s, p as nat, n as nat)) =~= parse_pairs(s, p as nat, n as nat)) by {
        match parse_pairs(s, p as nat, n as nat) {
            Parsed::Done(kvs, e) => assert(acc + kvs =~= kvs),
            _ => {},
        }
    }
    while i < n
        invariant
            s == buf@,
            i <= n,
            p <= q <= s.len(),
            pairs@.len() == acc.len(),
            forall|j: int| 0 <= j < acc.len() ==> #[trigger] acc[j] == (pairs@[j].0@, pairs@[j].1@),
            parse_pairs(s, p as nat, n as nat) == prepend_pairs(acc, parse_pairs(s, q as nat, (n - i) as nat)),
        decreases n - i,
    {
        let k = match decode_at(buf, q) {
            Decoded::Done(k, e) => {
                if e <= q || e > buf.len() {
                    return Decoded::Malformed;
                }
                (k, e)
            },
            Decoded::Incomplete => return Decoded::Incomplete,
            Decoded::Malformed => return Decoded::Malformed,
        };
        let (k, e) = k;
        match decode_at(buf, e) {
            Decoded::Done(v, f) => {
                if f <= e || f > buf.len() {
                    return Decoded::Malformed;
                }
                proof {
                    let rest = parse_pairs(s, f as nat, (n - i - 1) as nat);
                    match rest {
                        Parsed::Done(kvs, g) => assert(acc + (seq![(k@, v@)] + kvs) =~= acc.push(
                            (k@, v@),
                        ) + kvs),
                        _ => {},
                    }
                    acc = acc.push((k@, v@));
                }
                pairs.push((k, v));
                q = f;
                i = i + 1;
            },
            Decoded::Incomplete => return Decoded::Incomplete,
            Decoded::Malformed => return Decoded::Malformed,
        }
    }
    assert(acc + Seq::<(Val, Val)>::empty() =~= acc);
    proof {
        lemma_view_map(pairs);
        assert(view_pairs(pairs@) =~= acc);
    }
    Decoded::Done(Value::Dict(pairs), q)
}

/// Decodes one value from `buf` at position `pos`.
pub fn decode_at(buf: &Vec<u8>, pos: usize) -> (r: Decoded<Value>)
    ensures
        decoded_value_is(r, parse_at(buf@, pos as nat)),
        r matches Decoded::Done(_, e) ==> pos < e <= buf@.len(),
    decreases buf@.len() - pos, 0nat,
{
    if pos >= buf.len() {
        return Decoded::Incomplete;
    }
    let b = buf[pos];
    let rest = buf.len() - pos - 1;
    proof {
        reveal_with_fuel(pow256, 9);
    }
    if b <= 0x7f {
        Decoded::Done(Value::Integer(b as i128), pos + 1)
    } else if b >= 0xe0 {
        Decoded::Done(Value::Integer(b as i128 - 256), pos + 1)
    } else if b == 0xc0 {
        Decoded::Done(Value::Nil, pos + 1)
    } else if b == 0xc2 {
        Decoded::Done(Value::Boolean(false), pos + 1)
    } else if b == 0xc3 {
        Decoded::Done(Value::Boolean(true), pos + 1)
    } else if 0xcc <= b && b <= 0xcf {
        let k = width_of(b, 0xcc);
        if k > rest {
            Decoded::Incomplete
        } else {
            let u = read_be(buf, pos + 1, k);
            Decoded::Done(Value::Integer(u as i128), pos + 1 + k)
        }
    } else if 0xd0 <= b && b <= 0xd3 {
        let k = width_of(b, 0xd0);
        if k > rest {
            Decoded::Incomplete
        } else {
            let u = read_be(buf, pos + 1, k);
            let m: i128 = if k == 1 {
                0x100
            } else if k == 2 {
                0x1_0000
            } else if k == 4 {
                0x1_0000_0000
            } else {
                0x1_0000_0000_0000_0000
            };
            proof {
                lemma_be_bound(buf@, (pos + 1) as nat, k as nat);
            }
            let x: i128 = if u as i128 >= m / 2 {
                u as i128 - m
            } else {
                u as i128
            };
            Decoded::Done(Value::Integer(x), pos + 1 + k)
        }
    } else if b == 0xca || b == 0xcb {
        let k: usize = if b == 0xca { 4 } else { 8 };
        if k > rest {
            Decoded::Incomplete
        } else {
            let u = read_be(buf, pos + 1, k);
            proof {
                lemma_be_bound(buf@, (pos + 1) as nat, k as nat);
            }
            if b == 0xca {
                Decoded::Done(Value::Float32(u as u32), pos + 5)
            } else {
                Decoded::Done(Value::Float64(u), pos + 9)
            }
        }
    } else if 0xd4 <= b && b <= 0xd8 {
        let n: u64 = if b == 0xd4 {
            1
        } else if b == 0xd5 {
            2
        } else if b == 0xd6 {
            4
        } else if b == 0xd7 {
            8
        } else {
            16
        };
        decode_ext(buf, pos + 1, n)
    } else if 0xc7 <= b && b <= 0xc9 {
        let k = width_of(b, 0xc7);
        if k > rest {
            Decoded::Incomplete
        } else {
            let n = read_be(buf, pos + 1, k);
            decode_ext(buf, pos + 1 + k, n)
        }
    } else if 0xa0 <= b && b <= 0xbf {
        decode_raw(buf, pos + 1, (b - 0xa0) as u64, 0)
    } else if 0x90 <= b && b <= 0x9f {
        decode_items(buf, pos + 1, (b - 0x90) as u64)
    } else if 0x80 <= b && b <= 0x8f {
        decode_pairs(buf, pos + 1, (b - 0x80) as u64)
    } else {
        match sized_header_of(b) {
            Some((k, kind)) => {
                if k > rest {
                    Decoded::Incomplete
                } else {
                    let n = read_be(buf, pos + 1, k);
                    if kind < 2 {
                        decode_raw(buf, pos + 1 + k, n, kind)
                    } else if kind == 2 {
                        decode_items(buf, pos + 1 + k, n)
                    } else {
                        decode_pairs(buf, pos + 1 + k, n)
                    }
                }
            },
            None => Decoded::Malformed,
        }
    }
}

/// `k` bytes are written for a number of width `k`.
pub proof fn lemma_be_bytes_len(x: nat, k: nat)
    ensures
        be_bytes(x, k).len() == k,
    decreases k,
{
    if k > 0 {
        lemma_be_bytes_len(x / 256, (k - 1) as nat);
    }
}

/// A piece of a piece of `s` is a piece of `s`.
pub proof fn lemma_piece(s: Seq<u8>, p: nat, e: Seq<u8>, a: nat, m: nat)
    requires
        p + e.len() <= s.len(),
        s.subrange(p as int, (p + e.len()) as int) == e,
        a + m <= e.len(),
    ensures
        s.subrange((p + a) as int, (p + a + m) as int) == e.subrange(a as int, (a + m) as int),
{
    assert(s.subrange((p + a) as int, (p + a + m) as int) =~= e.subrange(a as int, (a + m) as int)) by {
        assert forall|j: int| 0 <= j < m implies #[trigger] s[p + a + j] == e[a + j] by {
            assert(s.subrange(p as int, (p + e.len()) as int)[a + j] == s[p + a + j]);
        }
    }
}

/// Reading back the `k` bytes written for `x` gives `x`.
pub proof fn lemma_be_bytes(s: Seq<u8>, p: nat, x: nat, k: nat)
    requires
        x < pow256(k),
        p + k <= s.len(),
        s.subrange(p as int, (p + k) as int) == be_bytes(x, k),
    ensures
        be(s, p, k) == x,
    decreases k,
{
    lemma_be_bytes_len(x, k);
    if k > 0 {
        let k1 = (k - 1) as nat;
        lemma_be_bytes_len(x / 256, k1);
        assert(s.subrange(p as int, (p + k1) as int) =~= be_bytes(x / 256, k1)) by {
            lemma_piece(s, p, be_bytes(x, k), 0, k1);
        }
        assert(s.subrange(p as int, (p + k) as int)[k - 1] == s[p + k - 1]);
        let m = pow256(k1);
        assert(x / 256 < m) by (nonlinear_arith)
            requires
                x < 256 * m,
        ;
        lemma_be_bytes(s, p, x / 256, k1);
    }
}

/// Every value is written as at least one byte.
pub proof fn lemma_enc_nonempty(v: Val)
    ensures
        enc(v).len() >= 1,
{
    match v {
        Val::Int(x) => {
            lemma_be_bytes_len(x as nat, 8);
        },
        Val::Str(t) => {
            lemma_be_bytes_len(t.len(), 4);
        },
        Val::Bin(t) => {
            lemma_be_bytes_len(t.len(), 4);
        },
        Val::Arr(vs) => {
            lemma_be_bytes_len(vs.len(), 4);
        },
        _ => {},
    }
}

/// The encodings of the first `i` values start those of the first `j`.
pub proof fn lemma_enc_upto_prefix(vs: Seq<Val>, i: nat, j: nat)
    requires
        i <= j <= vs.len(),
    ensures
        enc_upto(vs, i).len() <= enc_upto(vs, j).len(),
        enc_upto(vs, j).subrange(0, enc_upto(vs, i).len() as int) == enc_upto(vs, i),
    decreases j,
{
    if i < j {
        lemma_enc_upto_prefix(vs, i, (j - 1) as nat);
        let a = enc_upto(vs, i);
        let b = enc_upto(vs, (j - 1) as nat);
        assert(enc_upto(vs, j).subrange(0, a.len() as int) =~= b.subrange(0, a.len() as int));
    } else {
        assert(enc_upto(vs, j).subrange(0, enc_upto(vs, i).len() as int) =~= enc_upto(vs, i));
    }
}

/// Decoding reads back every integer that this library writes.
proof fn lemma_parse_enc_int(x: int, s: Seq<u8>, p: nat)
    requires
        int_fits(x),
        p + enc_int(x).len() <= s.len(),
        s.subrange(p as int, (p + enc_int(x).len()) as int) == enc_int(x),
    ensures
        parse_at(s, p) == Parsed::Done(Val::Int(x), p + enc_int(x).len()),
{
    let e = enc_int(x);
    assert(s.subrange(p as int, (p + e.len()) as int)[0] == s[p as int]);
    reveal_with_fuel(pow256, 9);
    if x >= 128 {
        lemma_be_bytes_len(x as nat, 8);
        lemma_piece(s, p, e, 1, 8);
        assert(e.subrange(1, 9) =~= be_bytes(x as nat, 8));
        lemma_be_bytes(s, p + 1, x as nat, 8);
    } else if x < -32 {
        let u = (x + pow256(8)) as nat;
        lemma_be_bytes_len(u, 8);
        lemma_piece(s, p, e, 1, 8);
        assert(e.subrange(1, 9) =~= be_bytes(u, 8));
        lemma_be_bytes(s, p + 1, u, 8);
    }
}

/// Decoding reads back every well-formed value that this library writes,
/// wherever its bytes stand and whatever follows them.
pub proof fn lemma_parse_enc(v: Val, s: Seq<u8>, p: nat)
    requires
        wf_val(v),
        p + enc(v).len() <= s.len(),
        s.subrange(p as int, (p + enc(v).len()) as int) == enc(v),
    ensures
        parse_at(s, p) == Parsed::Done(v, p + enc(v).len()),
    decreases v, 0nat,
{
    let e = enc(v);
    assert(s.subrange(p as int, (p + e.len()) as int)[0] == s[p as int]);
    reveal_with_fuel(pow256, 9);
    match v {
        Val::Int(x) => {
            assert(e == enc_int(x));
            lemma_parse_enc_int(x, s, p);
        },
        Val::F32(b) => {
            lemma_be_bytes_len(b as nat, 4);
            lemma_piece(s, p, e, 1, 4);
            assert(e.subrange(1, 5) =~= be_bytes(b as nat, 4));
            lemma_be_bytes(s, p + 1, b as nat, 4);
        },
        Val::F64(b) => {
            lemma_be_bytes_len(b as nat, 8);
            lemma_piece(s, p, e, 1, 8);
            assert(e.subrange(1, 9) =~= be_bytes(b as nat, 8));
            lemma_be_bytes(s, p + 1, b as nat, 8);
        },
        Val::Ext(t, d) => {
            let n = d.len();
            lemma_be_bytes_len(n, 4);
            lemma_piece(s, p, e, 1, 4);
            assert(e.subrange(1, 5) =~= be_bytes(n, 4));
            lemma_be_bytes(s, p + 1, n, 4);
            assert(s.subrange(p as int, (p + e.len()) as int)[5] == s[(p + 5) as int]);
            assert(e[5] == tag_byte(t));
            lemma_piece(s, p, e, 6, n);
            assert(e.subrange(6, (6 + n) as int) =~= d);
        },
        Val::Str(t) => {
            let n = t.len();
            if n < 32 {
                lemma_piece(s, p, e, 1, n);
                assert(e.subrange(1, (1 + n) as int) =~= t);
            } else {
                lemma_be_bytes_len(n, 4);
                lemma_piece(s, p, e, 1, 4);
                assert(e.subrange(1, 5) =~= be_bytes(n, 4));
                lemma_be_bytes(s, p + 1, n, 4);
                lemma_piece(s, p, e, 5, n);
                assert(e.subrange(5, (5 + n) as int) =~= t);
            }
        },
        Val::Bin(t) => {
            let n = t.len();
            lemma_be_bytes_len(n, 4);
            lemma_piece(s, p, e, 1, 4);
            assert(e.subrange(1, 5) =~= be_bytes(n, 4));
            lemma_be_bytes(s, p + 1, n, 4);
            lemma_piece(s, p, e, 5, n);
            assert(e.subrange(5, (5 + n) as int) =~= t);
        },
        Val::Dict(kvs) => {
            let n = kvs.len();
            let body = enc_pairs(kvs, n);
            let h: nat = if n < 16 { 1 } else { 5 };
            if n >= 16 {
                lemma_be_bytes_len(n, 4);
                lemma_piece(s, p, e, 1, 4);
                assert(e.subrange(1, 5) =~= be_bytes(n, 4));
                lemma_be_bytes(s, p + 1, n, 4);
            }
            assert(e.len() == h + body.len());
            lemma_piece(s, p, e, h, body.len());
            assert(e.subrange(h as int, (h + body.len()) as int) =~= body);
            lemma_parse_pairs_enc(kvs, s, p + h, 0);
            assert(kvs.subrange(0, n as int) =~= kvs);
        },
        Val::Arr(vs) => {
            let n = vs.len();
            let body = enc_upto(vs, n);
            let h: nat = if n < 16 { 1 } else { 5 };
            if n >= 16 {
                lemma_be_bytes_len(n, 4);
                lemma_piece(s, p, e, 1, 4);
                assert(e.subrange(1, 5) =~= be_bytes(n, 4));
                lemma_be_bytes(s, p + 1, n, 4);
            }
            assert(e.len() == h + body.len());
            lemma_piece(s, p, e, h, body.len());
            assert(e.subrange(h as int, (h + body.len()) as int) =~= body);
            lemma_parse_items_enc(vs, s, p + h, 0);
            assert(vs.subrange(0, n as int) =~= vs);
        },
        _ => {},
    }
}

/// Decoding reads back the encodings of `vs` from the `i`-th on.
pub proof fn lemma_parse_items_enc(vs: Seq<Val>, s: Seq<u8>, p: nat, i: nat)
    requires
        wf_upto(vs, vs.len()),
        i <= vs.len(),
        p + enc_upto(vs, vs.len()).len() <= s.len(),
        s.subrange(p as int, (p + enc_upto(vs, vs.len()).len()) as int) == enc_upto(vs, vs.len()),
    ensures
        parse_items(s, p + enc_upto(vs, i).len(), (vs.len() - i) as nat) == Parsed::Done(
            vs.subrange(i as int, vs.len() as int),
            p + enc_upto(vs, vs.len()).len(),
        ),
    decreases vs, vs.len() - i + 1,
{
    let n = vs.len();
    let all = enc_upto(vs, n);
    lemma_enc_upto_prefix(vs, i, n);
    if i == n {
        assert(vs.subrange(i as int, n as int) =~= Seq::<Val>::empty());
    } else {
        let q = p + enc_upto(vs, i).len();
        let x = vs[i as int];
        lemma_enc_upto_prefix(vs, i + 1, n);
        lemma_wf_upto(vs, n, i as int);
        let before = enc_upto(vs, i);
        let next = enc_upto(vs, i + 1);
        assert(next == before + enc(x));
        lemma_piece(s, p, all, 0, next.len());
        assert(all.subrange(0, next.len() as int) == next);
        lemma_piece(s, p, next, before.len(), enc(x).len());
        assert(next.subrange(before.len() as int, next.len() as int) =~= enc(x));
        lemma_parse_enc(x, s, q);
        lemma_enc_nonempty(x);
        lemma_parse_items_enc(vs, s, p, i + 1);
        assert(seq![x] + vs.subrange((i + 1) as int, n as int) =~= vs.subrange(i as int, n as int));
    }
}

/// The encodings of the first `i` pairs start those of the first `j`.
pub proof fn lemma_enc_pairs_prefix(kvs: Seq<(Val, Val)>, i: nat, j: nat)
    requires
        i <= j <= kvs.len(),
    ensures
        enc_pairs(kvs, i).len() <= enc_pairs(kvs, j).len(),
        enc_pairs(kvs, j).subrange(0, enc_pairs(kvs, i).len() as int) == enc_pairs(kvs, i),
    decreases j,
{
    if i < j {
        lemma_enc_pairs_prefix(kvs, i, (j - 1) as nat);
        let a = enc_pairs(kvs, i);
        let b = enc_pairs(kvs, (j - 1) as nat);
        assert(enc_pairs(kvs, j).subrange(0, a.len() as int) =~= b.subrange(0, a.len() as int));
    } else {
        assert(enc_pairs(kvs, j).subrange(0, enc_pairs(kvs, i).len() as int) =~= enc_pairs(kvs, i));
    }
}

/// Decoding reads back the encodings of the pairs of `kvs` from the `i`-th
/// on.
pub proof fn lemma_parse_pairs_enc(kvs: Seq<(Val, Val)>, s: Seq<u8>, p: nat, i: nat)
    requires
        wf_pairs(kvs, kvs.len()),
        i <= kvs.len(),
        p + enc_pairs(kvs, kvs.len()).len() <= s.len(),
        s.subrange(p as int, (p + enc_pairs(kvs, kvs.len()).len()) as int) == enc_pairs(
            kvs,
            kvs.len(),
        ),
    ensures
        parse_pairs(s, p + enc_pairs(kvs, i).len(), (kvs.len() - i) as nat) == Parsed::Done(
            kvs.subrange(i as int, kvs.len() as int),
            p + enc_pairs(kvs, kvs.len()).len(),
        ),
    decreases kvs, kvs.len() - i + 1,
{
    let n = kvs.len();
    let all = enc_pairs(kvs, n);
    lemma_enc_pairs_prefix(kvs, i, n);
    if i == n {
        assert(kvs.subrange(i as int, n as int) =~= Seq::<(Val, Val)>::empty());
    } else {
        let q = p + enc_pairs(kvs, i).len();
        let k = kvs[i as int].0;
        let v = kvs[i as int].1;
        lemma_enc_pairs_prefix(kvs, i + 1, n);
        lemma_wf_pairs(kvs, n, i as int);
        let before = enc_pairs(kvs, i);
        let next = enc_pairs(kvs, i + 1);
        assert(next == before + enc(k) + enc(v));
        lemma_piece(s, p, all, 0, next.len());
        assert(all.subrange(0, next.len() as int) == next);
        lemma_piece(s, p, next, before.len(), enc(k).len());
        assert(next.subrange(before.len() as int, (before.len() + enc(k).len()) as int) =~= enc(k));
        lemma_piece(s, p, next, before.len() + enc(k).len(), enc(v).len());
        assert(next.subrange(
            (before.len() + enc(k).len()) as int,
            next.len() as int,
        ) =~= enc(v));
        assert(decreases_to!(kvs => kvs[i as int]));
        lemma_parse_enc(k, s, q);
        lemma_parse_enc(v, s, q + enc(k).len());
        lemma_enc_nonempty(k);
        lemma_enc_nonempty(v);
        lemma_parse_pairs_enc(kvs, s, p, i + 1);
        assert(seq![(k, v)] + kvs.subrange((i + 1) as int, n as int) =~= kvs.subrange(i as int, n as int));
    }
}

} // verus!
