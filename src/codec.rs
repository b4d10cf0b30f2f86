//! The value codec: structured values to flat bytes and back.
//!
//! Every value starts with a one-byte tag; integers and float bits follow
//! as eight big-endian bytes, text, binary, sequence and mapping lengths as
//! four big-endian bytes. (These are the fixed-width forms of MessagePack.)
use vstd::prelude::*;

verus! {

pub const TAG_NULL: u8 = 0xc0;
pub const TAG_FALSE: u8 = 0xc2;
pub const TAG_TRUE: u8 = 0xc3;
pub const TAG_INT: u8 = 0xd3;
pub const TAG_FLOAT: u8 = 0xcb;
pub const TAG_TEXT: u8 = 0xdb;
pub const TAG_BINARY: u8 = 0xc6;
pub const TAG_LIST: u8 = 0xdd;
pub const TAG_MAP: u8 = 0xdf;

/// A structured value. Text is held as its UTF-8 bytes; a float as its
/// IEEE-754 bit pattern, so that every value, NaN and signed zero included,
/// comes back bit for bit.
pub enum Value {
    Null,
    Bool(bool),
    Int(i64),
    Float(u64),
    Text(Vec<u8>),
    Binary(Vec<u8>),
    List(Vec<Value>),
    Mapping(Vec<(Vec<u8>, Value)>),
}

/// The mathematical model of a value.
pub enum Node {
    Null,
    Bool(bool),
    Int(i64),
    Float(u64),
    Text(Seq<u8>),
    Binary(Seq<u8>),
    List(Seq<Node>),
    Mapping(Seq<(Seq<u8>, Node)>),
}

impl Value {
    /// The model of a value, all the way down.
    pub open spec fn deep(self) -> Node
        decreases self,
    {
        match self {
            Value::Null => Node::Null,
            Value::Bool(b) => Node::Bool(b),
            Value::Int(x) => Node::Int(x),
            Value::Float(x) => Node::Float(x),
            Value::Text(t) => Node::Text(t@),
            Value::Binary(t) => Node::Binary(t@),
            Value::List(items) => Node::List(deep_items(items@)),
            Value::Mapping(entries) => Node::Mapping(deep_entries(entries@)),
        }
    }
}

pub open spec fn deep_items(s: Seq<Value>) -> Seq<Node>
    decreases s,
{
    Seq::new(
        s.len(),
        |i: int|
            if 0 <= i < s.len() {
                s[i].deep()
            } else {
                Node::Null
            },
    )
}

pub open spec fn deep_entries(s: Seq<(Vec<u8>, Value)>) -> Seq<(Seq<u8>, Node)>
    decreases s,
{
    Seq::new(
        s.len(),
        |i: int|
            if 0 <= i < s.len() {
                (s[i].0@, s[i].1.deep())
            } else {
                (Seq::empty(), Node::Null)
            },
    )
}

/// Four big-endian bytes.
pub open spec fn be32(x: u32) -> Seq<u8> {
    seq![(x >> 24u32) as u8, (x >> 16u32) as u8, (x >> 8u32) as u8, x as u8]
}

/// Eight big-endian bytes.
pub open spec fn be64(x: u64) -> Seq<u8> {
    seq![
        (x >> 56u64) as u8,
        (x >> 48u64) as u8,
        (x >> 40u64) as u8,
        (x >> 32u64) as u8,
        (x >> 24u64) as u8,
        (x >> 16u64) as u8,
        (x >> 8u64) as u8,
        x as u8,
    ]
}

/// The big-endian `u32` at `p`.
pub open spec fn read32(b: Seq<u8>, p: int) -> u32 {
    ((b[p] as u32) << 24u32) | ((b[p + 1] as u32) << 16u32) | ((b[p + 2] as u32) << 8u32) | (b[p
        + 3] as u32)
}

/// The big-endian `u64` at `p`.
pub open spec fn read64(b: Seq<u8>, p: int) -> u64 {
    ((b[p] as u64) << 56u64) | ((b[p + 1] as u64) << 48u64) | ((b[p + 2] as u64) << 40u64) | ((b[p
        + 3] as u64) << 32u64) | ((b[p + 4] as u64) << 24u64) | ((b[p + 5] as u64) << 16u64) | ((b[p
        + 6] as u64) << 8u64) | (b[p + 7] as u64)
}

/// A tag followed by a four-byte length and the bytes themselves.
pub open spec fn enc_bytes(tag: u8, t: Seq<u8>) -> Seq<u8> {
    seq![tag] + be32(t.len() as u32) + t
}

/// The encoding of a value.
pub open spec fn enc(n: Node) -> Seq<u8>
    decreases n,
{
    match n {
        Node::Null => seq![TAG_NULL],
        Node::Bool(b) => if b {
            seq![TAG_TRUE]
        } else {
            seq![TAG_FALSE]
        },
        Node::Int(x) => seq![TAG_INT] + be64(x as u64),
        Node::Float(x) => seq![TAG_FLOAT] + be64(x),
        Node::Text(t) => enc_bytes(TAG_TEXT, t),
        Node::Binary(t) => enc_bytes(TAG_BINARY, t),
        Node::List(s) => seq![TAG_LIST] + be32(s.len() as u32) + item_encs(s).flatten(),
        Node::Mapping(m) => seq![TAG_MAP] + be32(m.len() as u32) + entry_encs(m).flatten(),
    }
}

/// The encodings of the items of a sequence, one by one.
pub open spec fn item_encs(s: Seq<Node>) -> Seq<Seq<u8>>
    decreases s,
{
    Seq::new(
        s.len(),
        |i: int|
            if 0 <= i < s.len() {
                enc(s[i])
            } else {
                Seq::empty()
            },
    )
}

/// The encodings of the entries of a mapping: key as text, then value.
pub open spec fn entry_encs(m: Seq<(Seq<u8>, Node)>) -> Seq<Seq<u8>>
    decreases m,
{
    Seq::new(
        m.len(),
        |i: int|
            if 0 <= i < m.len() {
                enc_bytes(TAG_TEXT, m[i].0) + enc(m[i].1)
            } else {
                Seq::empty()
            },
    )
}

/// Whether `k` is the key of one of the entries.
pub open spec fn has_key(m: Seq<(Seq<u8>, Node)>, k: Seq<u8>) -> bool {
    exists|j: int| 0 <= j < m.len() && (#[trigger] m[j]).0 == k
}

/// No two entries of a mapping share a key.
pub open spec fn keys_unique(m: Seq<(Seq<u8>, Node)>) -> bool {
    forall|i: int, j: int| 0 <= i < j < m.len() ==> (#[trigger] m[i]).0 != (#[trigger] m[j]).0
}

/// A value the codec can represent: every length fits in four bytes and
/// every mapping has distinct keys.
pub open spec fn encodable(n: Node) -> bool
    decreases n,
{
    match n {
        Node::Text(t) => t.len() <= u32::MAX,
        Node::Binary(t) => t.len() <= u32::MAX,
        Node::List(s) => s.len() <= u32::MAX && items_encodable(s),
        Node::Mapping(m) => m.len() <= u32::MAX && entries_encodable(m) && keys_unique(m),
        _ => true,
    }
}

pub open spec fn items_encodable(s: Seq<Node>) -> bool
    decreases s,
{
    forall|i: int| 0 <= i < s.len() ==> encodable(#[trigger] s[i])
}

pub open spec fn entries_encodable(m: Seq<(Seq<u8>, Node)>) -> bool
    decreases m,
{
    forall|i: int| 0 <= i < m.len() ==> (#[trigger] m[i]).0.len() <= u32::MAX && encodable(m[i].1)
}

/// Reads a tag-less length-prefixed byte string at `p`, giving its bytes
/// and the position after it.
pub open spec fn parse_bytes(b: Seq<u8>, p: int) -> Option<(Seq<u8>, int)> {
    if 0 <= p && p + 4 <= b.len() && p + 4 + read32(b, p) <= b.len() {
        let e = p + 4 + read32(b, p);
        Some((b.subrange(p + 4, e), e))
    } else {
        None
    }
}

/// Reads one value at `p`, giving it and the position after it.
pub open spec fn parse(b: Seq<u8>, p: int) -> Option<(Node, int)>
    decreases b.len() - p, 0int,
{
    if p < 0 || p >= b.len() {
        None
    } else {
        let tag = b[p];
        if tag == TAG_NULL {
            Some((Node::Null, p + 1))
        } else if tag == TAG_FALSE {
            Some((Node::Bool(false), p + 1))
        } else if tag == TAG_TRUE {
            Some((Node::Bool(true), p + 1))
        } else if tag == TAG_INT || tag == TAG_FLOAT {
            if p + 9 <= b.len() {
                let x = read64(b, p + 1);
                if tag == TAG_INT {
                    Some((Node::Int(x as i64), p + 9))
                } else {
                    Some((Node::Float(x), p + 9))
                }
            } else {
                None
            }
        } else if tag == TAG_TEXT || tag == TAG_BINARY {
            match parse_bytes(b, p + 1) {
                Some((t, e)) => if tag == TAG_TEXT {
                    Some((Node::Text(t), e))
                } else {
                    Some((Node::Binary(t), e))
                },
                None => None,
            }
        } else if tag == TAG_LIST || tag == TAG_MAP {
            if p + 5 <= b.len() {
                let c = read32(b, p + 1) as int;
                if tag == TAG_LIST {
                    match parse_items(b, p + 5, c, Seq::empty()) {
                        Some((s, e)) => Some((Node::List(s), e)),
                        None => None,
                    }
                } else {
                    match parse_entries(b, p + 5, c, Seq::empty()) {
                        Some((m, e)) => Some((Node::Mapping(m), e)),
                        None => None,
                    }
                }
            } else {
                None
            }
        } else {
            None
        }
    }
}

/// Reads `c` more values from `p` on, after those already in `acc`.
pub open spec fn parse_items(b: Seq<u8>, p: int, c: int, acc: Seq<Node>) -> Option<(Seq<Node>, int)>
    decreases b.len() - p, c + 1,
{
    if p < 0 || p > b.len() || c < 0 {
        None
    } else if c == 0 {
        Some((acc, p))
    } else {
        match parse(b, p) {
            Some((n, e)) => if p < e <= b.len() {
                parse_items(b, e, c - 1, acc.push(n))
            } else {
                None
            },
            None => None,
        }
    }
}

/// Reads `c` more entries from `p` on, after those already in `acc`.
pub open spec fn parse_entries(
    b: Seq<u8>,
    p: int,
    c: int,
    acc: Seq<(Seq<u8>, Node)>,
) -> Option<(Seq<(Seq<u8>, Node)>, int)>
    decreases b.len() - p, c + 1,
{
    if p < 0 || p > b.len() || c < 0 {
        None
    } else if c == 0 {
        Some((acc, p))
    } else if p < b.len() && b[p] == TAG_TEXT {
        match parse_bytes(b, p + 1) {
            Some((k, e1)) => if has_key(acc, k) {
                None
            } else {
                match parse(b, e1) {
                    Some((v, e2)) => if p < e1 < e2 <= b.len() {
                        parse_entries(b, e2, c - 1, acc.push((k, v)))
                    } else {
                        None
                    },
                    None => None,
                }
            },
            None => None,
        }
    } else {
        None
    }
}

/// The value a whole byte string decodes to, if any.
pub open spec fn decode_spec(b: Seq<u8>) -> Option<Node> {
    match parse(b, 0) {
        Some((n, e)) => if e == b.len() {
            Some(n)
        } else {
            None
        },
        None => None,
    }
}

/// A match of `x + y` at `p` is a match of `x` at `p` and of `y` right after.
proof fn lemma_split_match(b: Seq<u8>, p: int, x: Seq<u8>, y: Seq<u8>)
    requires
        0 <= p,
        p + x.len() + y.len() <= b.len(),
        b.subrange(p, p + x.len() + y.len()) == x + y,
    ensures
        b.subrange(p, p + x.len()) == x,
        b.subrange(p + x.len(), p + x.len() + y.len()) == y,
{
    assert(b.subrange(p, p + x.len()) =~= (x + y).subrange(0, x.len() as int));
    assert(b.subrange(p + x.len(), p + x.len() + y.len()) =~= (x + y).subrange(
        x.len() as int,
        (x.len() + y.len()) as int,
    ));
    assert((x + y).subrange(0, x.len() as int) =~= x);
    assert((x + y).subrange(x.len() as int, (x.len() + y.len()) as int) =~= y);
}

proof fn lemma_read32(b: Seq<u8>, p: int, x: u32)
    requires
        0 <= p,
        p + 4 <= b.len(),
        b.subrange(p, p + 4) == be32(x),
    ensures
        read32(b, p) == x,
{
    assert(b[p] == b.subrange(p, p + 4)[0]);
    assert(b[p + 1] == b.subrange(p, p + 4)[1]);
    assert(b[p + 2] == b.subrange(p, p + 4)[2]);
    assert(b[p + 3] == b.subrange(p, p + 4)[3]);
    assert(((((x >> 24u32) as u8) as u32) << 24u32) | ((((x >> 16u32) as u8) as u32) << 16u32) | ((
    ((x >> 8u32) as u8) as u32) << 8u32) | ((x as u8) as u32) == x) by (bit_vector);
}

proof fn lemma_read64(b: Seq<u8>, p: int, x: u64)
    requires
        0 <= p,
        p + 8 <= b.len(),
        b.subrange(p, p + 8) == be64(x),
    ensures
        read64(b, p) == x,
{
    assert(b[p] == b.subrange(p, p + 8)[0]);
    assert(b[p + 1] == b.subrange(p, p + 8)[1]);
    assert(b[p + 2] == b.subrange(p, p + 8)[2]);
    assert(b[p + 3] == b.subrange(p, p + 8)[3]);
    assert(b[p + 4] == b.subrange(p, p + 8)[4]);
    assert(b[p + 5] == b.subrange(p, p + 8)[5]);
    assert(b[p + 6] == b.subrange(p, p + 8)[6]);
    assert(b[p + 7] == b.subrange(p, p + 8)[7]);
    assert(((((x >> 56u64) as u8) as u64) << 56u64) | ((((x >> 48u64) as u8) as u64) << 48u64) | ((
    ((x >> 40u64) as u8) as u64) << 40u64) | ((((x >> 32u64) as u8) as u64) << 32u64) | ((((x
        >> 24u64) as u8) as u64) << 24u64) | ((((x >> 16u64) as u8) as u64) << 16u64) | ((((x
        >> 8u64) as u8) as u64) << 8u64) | ((x as u8) as u64) == x) by (bit_vector);
}

proof fn lemma_int_bits(x: i64)
    ensures
        (x as u64) as i64 == x,
{
    assert((x as u64) as i64 == x) by (bit_vector);
}

/// A length-prefixed byte string reads back as itself.
proof fn lemma_parse_bytes(b: Seq<u8>, p: int, t: Seq<u8>)
    requires
        t.len() <= u32::MAX,
        0 <= p,
        p + 4 + t.len() <= b.len(),
        b.subrange(p, p + 4 + t.len()) == be32(t.len() as u32) + t,
    ensures
        parse_bytes(b, p) == Some((t, p + 4 + t.len())),
{
    lemma_split_match(b, p, be32(t.len() as u32), t);
    lemma_read32(b, p, t.len() as u32);
}

/// Whatever follows it, the encoding of an encodable value reads back as
/// that value, and the reading stops right after it.
pub proof fn lemma_parse_enc(n: Node, b: Seq<u8>, p: int)
    requires
        encodable(n),
        0 <= p,
        p + enc(n).len() <= b.len(),
        b.subrange(p, p + enc(n).len()) == enc(n),
    ensures
        parse(b, p) == Some((n, p + enc(n).len())),
    decreases n, 0int,
{
    let e = enc(n);
    assert(b[p] == b.subrange(p, p + e.len())[0]);
    match n {
        Node::Int(x) => {
            lemma_split_match(b, p, seq![TAG_INT], be64(x as u64));
            lemma_read64(b, p + 1, x as u64);
            lemma_int_bits(x);
        },
        Node::Float(x) => {
            lemma_split_match(b, p, seq![TAG_FLOAT], be64(x));
            lemma_read64(b, p + 1, x);
        },
        Node::Text(t) => {
            assert(e =~= seq![TAG_TEXT] + (be32(t.len() as u32) + t));
            lemma_split_match(b, p, seq![TAG_TEXT], be32(t.len() as u32) + t);
            lemma_parse_bytes(b, p + 1, t);
        },
        Node::Binary(t) => {
            assert(e =~= seq![TAG_BINARY] + (be32(t.len() as u32) + t));
            lemma_split_match(b, p, seq![TAG_BINARY], be32(t.len() as u32) + t);
            lemma_parse_bytes(b, p + 1, t);
        },
        Node::List(s) => {
            let f = item_encs(s).flatten();
            assert(e =~= (seq![TAG_LIST] + be32(s.len() as u32)) + f);
            lemma_split_match(b, p, seq![TAG_LIST] + be32(s.len() as u32), f);
            lemma_split_match(b, p, seq![TAG_LIST], be32(s.len() as u32));
            lemma_read32(b, p + 1, s.len() as u32);
            assert(item_encs(s).subrange(0, s.len() as int) =~= item_encs(s));
            lemma_parse_items(s, 0, b, p + 5, Seq::empty());
            assert(Seq::<Node>::empty() + s.subrange(0, s.len() as int) =~= s);
        },
        Node::Mapping(m) => {
            let f = entry_encs(m).flatten();
            assert(e =~= (seq![TAG_MAP] + be32(m.len() as u32)) + f);
            lemma_split_match(b, p, seq![TAG_MAP] + be32(m.len() as u32), f);
            lemma_split_match(b, p, seq![TAG_MAP], be32(m.len() as u32));
            lemma_read32(b, p + 1, m.len() as u32);
            assert(entry_encs(m).subrange(0, m.len() as int) =~= entry_encs(m));
            assert(m.subrange(0, 0) =~= Seq::<(Seq<u8>, Node)>::empty());
            lemma_parse_entries(m, 0, b, p + 5, Seq::empty());
            assert(Seq::<(Seq<u8>, Node)>::empty() + m.subrange(0, m.len() as int) =~= m);
        },
        _ => {},
    }
}

proof fn lemma_parse_items(s: Seq<Node>, i: int, b: Seq<u8>, p: int, acc: Seq<Node>)
    requires
        0 <= i <= s.len(),
        items_encodable(s),
        0 <= p,
        p + item_encs(s).subrange(i, s.len() as int).flatten().len() <= b.len(),
        b.subrange(p, p + item_encs(s).subrange(i, s.len() as int).flatten().len())
            == item_encs(s).subrange(i, s.len() as int).flatten(),
    ensures
        parse_items(b, p, s.len() - i, acc) == Some(
            (acc + s.subrange(i, s.len() as int), p + item_encs(s).subrange(i, s.len() as int).flatten().len()),
        ),
    decreases s, s.len() - i,
{
    let x = item_encs(s).subrange(i, s.len() as int);
    if i == s.len() {
        assert(x =~= Seq::<Seq<u8>>::empty());
        assert(acc + s.subrange(i, s.len() as int) =~= acc);
    } else {
        let rest = item_encs(s).subrange(i + 1, s.len() as int);
        assert(x.drop_first() =~= rest);
        assert(x.first() == enc(s[i]));
        assert(x.flatten() == enc(s[i]) + rest.flatten());
        lemma_split_match(b, p, enc(s[i]), rest.flatten());
        assert(encodable(s[i]));
        lemma_parse_enc(s[i], b, p);
        lemma_parse_items(s, i + 1, b, p + enc(s[i]).len(), acc.push(s[i]));
        assert(acc.push(s[i]) + s.subrange(i + 1, s.len() as int) =~= acc + s.subrange(i, s.len() as int));
    }
}

proof fn lemma_parse_entries(
    m: Seq<(Seq<u8>, Node)>,
    i: int,
    b: Seq<u8>,
    p: int,
    acc: Seq<(Seq<u8>, Node)>,
)
    requires
        0 <= i <= m.len(),
        entries_encodable(m),
        keys_unique(m),
        acc == m.subrange(0, i),
        0 <= p,
        p + entry_encs(m).subrange(i, m.len() as int).flatten().len() <= b.len(),
        b.subrange(p, p + entry_encs(m).subrange(i, m.len() as int).flatten().len())
            == entry_encs(m).subrange(i, m.len() as int).flatten(),
    ensures
        parse_entries(b, p, m.len() - i, acc) == Some(
            (acc + m.subrange(i, m.len() as int), p + entry_encs(m).subrange(i, m.len() as int).flatten().len()),
        ),
    decreases m, m.len() - i,
{
    let x = entry_encs(m).subrange(i, m.len() as int);
    if i == m.len() {
        assert(x =~= Seq::<Seq<u8>>::empty());
        assert(acc + m.subrange(i, m.len() as int) =~= acc);
    } else {
        let rest = entry_encs(m).subrange(i + 1, m.len() as int);
        let k = m[i].0;
        let v = m[i].1;
        let ke = seq![TAG_TEXT] + (be32(k.len() as u32) + k);
        assert(x.drop_first() =~= rest);
        assert(enc_bytes(TAG_TEXT, k) =~= ke);
        assert(x.first() == ke + enc(v));
        assert(x.flatten() == (ke + enc(v)) + rest.flatten());
        lemma_split_match(b, p, ke + enc(v), rest.flatten());
        lemma_split_match(b, p, ke, enc(v));
        lemma_split_match(b, p, seq![TAG_TEXT], be32(k.len() as u32) + k);
        assert(b[p] == b.subrange(p, p + 1)[0]);
        lemma_parse_bytes(b, p + 1, k);
        assert(!has_key(acc, k)) by {
            if has_key(acc, k) {
                let j = choose|j: int| 0 <= j < acc.len() && (#[trigger] acc[j]).0 == k;
                assert(m[j].0 == m[i].0);
            }
        }
        assert(acc.push((k, v)) =~= m.subrange(0, i + 1));
        assert(encodable(v));
        lemma_parse_enc(v, b, p + ke.len());
        lemma_parse_entries(m, i + 1, b, p + ke.len() + enc(v).len(), acc.push((k, v)));
        assert(acc.push((k, v)) + m.subrange(i + 1, m.len() as int) =~= acc + m.subrange(i, m.len() as int));
    }
}

/// Decoding the encoding of any encodable value gives that value back.
pub proof fn lemma_round_trip(n: Node)
    requires
        encodable(n),
    ensures
        decode_spec(enc(n)) == Some(n),
{
    assert(enc(n).subrange(0, enc(n).len() as int) =~= enc(n));
    lemma_parse_enc(n, enc(n), 0);
}

proof fn lemma_be32_of_read(b: Seq<u8>, p: int)
    requires
        0 <= p,
        p + 4 <= b.len(),
    ensures
        be32(read32(b, p)) == b.subrange(p, p + 4),
{
    let (b0, b1, b2, b3) = (b[p], b[p + 1], b[p + 2], b[p + 3]);
    let x = read32(b, p);
    assert((x >> 24u32) as u8 == b0 && (x >> 16u32) as u8 == b1 && (x >> 8u32) as u8 == b2 && x as u8
        == b3) by (bit_vector)
        requires
            x == ((b0 as u32) << 24u32) | ((b1 as u32) << 16u32) | ((b2 as u32) << 8u32) | (b3 as u32),
    ;
    assert(be32(x) =~= b.subrange(p, p + 4));
}

proof fn lemma_be64_of_read(b: Seq<u8>, p: int)
    requires
        0 <= p,
        p + 8 <= b.len(),
    ensures
        be64(read64(b, p)) == b.subrange(p, p + 8),
{
    let (b0, b1, b2, b3) = (b[p], b[p + 1], b[p + 2], b[p + 3]);
    let (b4, b5, b6, b7) = (b[p + 4], b[p + 5], b[p + 6], b[p + 7]);
    let x = read64(b, p);
    assert((x >> 56u64) as u8 == b0 && (x >> 48u64) as u8 == b1 && (x >> 40u64) as u8 == b2 && (x
        >> 32u64) as u8 == b3 && (x >> 24u64) as u8 == b4 && (x >> 16u64) as u8 == b5 && (x
        >> 8u64) as u8 == b6 && x as u8 == b7) by (bit_vector)
        requires
            x == ((b0 as u64) << 56u64) | ((b1 as u64) << 48u64) | ((b2 as u64) << 40u64) | ((
            b3 as u64) << 32u64) | ((b4 as u64) << 24u64) | ((b5 as u64) << 16u64) | ((b6 as u64)
                << 8u64) | (b7 as u64),
    ;
    assert(be64(x) =~= b.subrange(p, p + 8));
}

proof fn lemma_bits_int(x: u64)
    ensures
        (x as i64) as u64 == x,
{
    assert((x as i64) as u64 == x) by (bit_vector);
}

/// What `parse_bytes` reads is a tag-less length-prefixed byte string.
proof fn lemma_parse_bytes_sound(b: Seq<u8>, p: int)
    ensures
        parse_bytes(b, p) matches Some((t, e)) ==> {
            &&& p + 4 <= e <= b.len()
            &&& t.len() <= u32::MAX
            &&& b.subrange(p, e) == be32(t.len() as u32) + t
        },
{
    if let Some((t, e)) = parse_bytes(b, p) {
        lemma_be32_of_read(b, p);
        assert(b.subrange(p, e) =~= b.subrange(p, p + 4) + t);
    }
}

/// Whatever `parse` reads is an encodable value, and the bytes it went over
/// are that value's encoding.
pub proof fn lemma_parse_sound(b: Seq<u8>, p: int)
    ensures
        parse(b, p) matches Some((n, e)) ==> {
            &&& p < e <= b.len()
            &&& encodable(n)
            &&& b.subrange(p, e) == enc(n)
        },
    decreases b.len() - p, 0int,
{
    if 0 <= p < b.len() {
        let tag = b[p];
        if (tag == TAG_INT || tag == TAG_FLOAT) && p + 9 <= b.len() {
            let x = read64(b, p + 1);
            lemma_be64_of_read(b, p + 1);
            lemma_bits_int(x);
            assert(b.subrange(p, p + 9) =~= seq![tag] + b.subrange(p + 1, p + 9));
        } else if tag == TAG_TEXT || tag == TAG_BINARY {
            lemma_parse_bytes_sound(b, p + 1);
            if let Some((t, e)) = parse_bytes(b, p + 1) {
                assert(b.subrange(p, e) =~= seq![tag] + b.subrange(p + 1, e));
                assert(enc_bytes(tag, t) =~= seq![tag] + (be32(t.len() as u32) + t));
            }
        } else if (tag == TAG_LIST || tag == TAG_MAP) && p + 5 <= b.len() {
            let c = read32(b, p + 1);
            lemma_be32_of_read(b, p + 1);
            if tag == TAG_LIST {
                lemma_items_sound(b, p + 5, c as int, Seq::empty());
                if let Some((s, e)) = parse_items(b, p + 5, c as int, Seq::empty()) {
                    assert(s.subrange(0, s.len() as int) =~= s);
                    assert(b.subrange(p, e) =~= (seq![tag] + b.subrange(p + 1, p + 5)) + b.subrange(
                        p + 5,
                        e,
                    ));
                    assert(enc(Node::List(s)) =~= (seq![tag] + be32(c)) + item_encs(s).flatten());
                }
            } else {
                lemma_entries_sound(b, p + 5, c as int, Seq::empty());
                if let Some((m, e)) = parse_entries(b, p + 5, c as int, Seq::empty()) {
                    assert(m.subrange(0, m.len() as int) =~= m);
                    assert(b.subrange(p, e) =~= (seq![tag] + b.subrange(p + 1, p + 5)) + b.subrange(
                        p + 5,
                        e,
                    ));
                    assert(enc(Node::Mapping(m)) =~= (seq![tag] + be32(c)) + entry_encs(
                        m,
                    ).flatten());
                }
            }
        }
    }
}

proof fn lemma_items_sound(b: Seq<u8>, p: int, c: int, acc: Seq<Node>)
    ensures
        parse_items(b, p, c, acc) matches Some((s, e)) ==> {
            &&& p <= e <= b.len()
            &&& s.len() == acc.len() + c
            &&& s.subrange(0, acc.len() as int) == acc
            &&& items_encodable(s.subrange(acc.len() as int, s.len() as int))
            &&& b.subrange(p, e) == item_encs(s.subrange(acc.len() as int, s.len() as int)).flatten()
        },
    decreases b.len() - p, c + 1,
{
    if 0 <= p <= b.len() && c >= 0 {
        if c == 0 {
            let t = acc.subrange(acc.len() as int, acc.len() as int);
            assert(acc.subrange(0, acc.len() as int) =~= acc);
            assert(item_encs(t) =~= Seq::<Seq<u8>>::empty());
            assert(b.subrange(p, p) =~= Seq::<u8>::empty());
        } else {
            lemma_parse_sound(b, p);
            if let Some((n, e1)) = parse(b, p) {
                if p < e1 <= b.len() {
                    lemma_items_sound(b, e1, c - 1, acc.push(n));
                    if let Some((s, e)) = parse_items(b, e1, c - 1, acc.push(n)) {
                        let k = acc.len() as int;
                        let t = s.subrange(k, s.len() as int);
                        let t2 = s.subrange(k + 1, s.len() as int);
                        assert(s.subrange(0, k + 1)[k] == n);
                        assert(t[0] == n);
                        assert(s.subrange(0, k) =~= s.subrange(0, k + 1).subrange(0, k));
                        assert(s.subrange(0, k + 1).subrange(0, k) =~= acc);
                        assert(item_encs(t).drop_first() =~= item_encs(t2));
                        assert(item_encs(t).first() == enc(n));
                        assert(item_encs(t).flatten() == enc(n) + item_encs(t2).flatten());
                        assert(b.subrange(p, e) =~= b.subrange(p, e1) + b.subrange(e1, e));
                        assert forall|i: int| 0 <= i < t.len() implies encodable(#[trigger] t[i]) by {
                            if i > 0 {
                                assert(t[i] == t2[i - 1]);
                            }
                        }
                    }
                }
            }
        }
    }
}

proof fn lemma_entries_sound(b: Seq<u8>, p: int, c: int, acc: Seq<(Seq<u8>, Node)>)
    ensures
        parse_entries(b, p, c, acc) matches Some((s, e)) ==> {
            &&& p <= e <= b.len()
            &&& s.len() == acc.len() + c
            &&& s.subrange(0, acc.len() as int) == acc
            &&& entries_encodable(s.subrange(acc.len() as int, s.len() as int))
            &&& (keys_unique(acc) ==> keys_unique(s))
            &&& b.subrange(p, e) == entry_encs(s.subrange(acc.len() as int, s.len() as int)).flatten()
        },
    decreases b.len() - p, c + 1,
{
    if 0 <= p <= b.len() && c >= 0 {
        if c == 0 {
            let t = acc.subrange(acc.len() as int, acc.len() as int);
            assert(acc.subrange(0, acc.len() as int) =~= acc);
            assert(entry_encs(t) =~= Seq::<Seq<u8>>::empty());
            assert(b.subrange(p, p) =~= Seq::<u8>::empty());
        } else if p < b.len() && b[p] == TAG_TEXT {
            lemma_parse_bytes_sound(b, p + 1);
            if let Some((key, e1)) = parse_bytes(b, p + 1) {
                if !has_key(acc, key) {
                    lemma_parse_sound(b, e1);
                    if let Some((v, e2)) = parse(b, e1) {
                        if p < e1 < e2 <= b.len() {
                            let acc2 = acc.push((key, v));
                            lemma_entries_sound(b, e2, c - 1, acc2);
                            if let Some((s, e)) = parse_entries(b, e2, c - 1, acc2) {
                                let k = acc.len() as int;
                                let t = s.subrange(k, s.len() as int);
                                let t2 = s.subrange(k + 1, s.len() as int);
                                assert(s.subrange(0, k + 1)[k] == (key, v));
                                assert(t[0] == (key, v));
                                assert(s.subrange(0, k) =~= s.subrange(0, k + 1).subrange(0, k));
                                assert(s.subrange(0, k + 1).subrange(0, k) =~= acc);
                                assert(entry_encs(t).drop_first() =~= entry_encs(t2));
                                assert(entry_encs(t).first() == enc_bytes(TAG_TEXT, key) + enc(v));
                                assert(entry_encs(t).flatten() == (enc_bytes(TAG_TEXT, key) + enc(v))
                                    + entry_encs(t2).flatten());
                                assert(b.subrange(p, e1) =~= seq![TAG_TEXT] + b.subrange(p + 1, e1));
                                assert(enc_bytes(TAG_TEXT, key) =~= seq![TAG_TEXT] + (be32(
                                    key.len() as u32,
                                ) + key));
                                assert(b.subrange(p, e) =~= (b.subrange(p, e1) + b.subrange(e1, e2))
                                    + b.subrange(e2, e));
                                assert forall|i: int| 0 <= i < t.len() implies (#[trigger] t[i]).0.len()
                                    <= u32::MAX && encodable(t[i].1) by {
                                    if i > 0 {
                                        assert(t[i] == t2[i - 1]);
                                    }
                                }
                                if keys_unique(acc) {
                                    assert forall|x: int, y: int|
                                        0 <= x < y < acc2.len() implies (#[trigger] acc2[x]).0
                                        != (#[trigger] acc2[y]).0 by {
                                        if y == acc.len() {
                                            assert(acc2[x] == acc[x]);
                                        } else {
                                            assert(acc2[x] == acc[x]);
                                            assert(acc2[y] == acc[y]);
                                        }
                                    }
                                }
                            }
                        }
                    }
                }
            }
        }
    }
}

/// Every byte string that decodes is exactly the encoding of the value it
/// decodes to, and that value is encodable.
pub proof fn lemma_decode_sound(b: Seq<u8>)
    ensures
        decode_spec(b) matches Some(n) ==> encodable(n) && enc(n) == b,
{
    lemma_parse_sound(b, 0);
    assert(b.subrange(0, b.len() as int) =~= b);
}

fn push_be32(out: &mut Vec<u8>, x: u32)
    ensures
        final(out)@ == old(out)@ + be32(x),
{
    out.push((x >> 24u32) as u8);
    out.push((x >> 16u32) as u8);
    out.push((x >> 8u32) as u8);
    out.push(x as u8);
    assert(final(out)@ =~= old(out)@ + be32(x));
}

fn push_be64(out: &mut Vec<u8>, x: u64)
    ensures
        final(out)@ == old(out)@ + be64(x),
{
    out.push((x >> 56u64) as u8);
    out.push((x >> 48u64) as u8);
    out.push((x >> 40u64) as u8);
    out.push((x >> 32u64) as u8);
    out.push((x >> 24u64) as u8);
    out.push((x >> 16u64) as u8);
    out.push((x >> 8u64) as u8);
    out.push(x as u8);
    assert(final(out)@ =~= old(out)@ + be64(x));
}

/// Appends a tag, the length and the bytes; refuses bytes whose length
/// does not fit in four bytes.
fn push_bytes(out: &mut Vec<u8>, tag: u8, t: &Vec<u8>) -> (ok: bool)
    ensures
        ok == (t@.len() <= u32::MAX),
        ok ==> final(out)@ == old(out)@ + enc_bytes(tag, t@),
{
    if t.len() > 0xffff_ffffusize {
        return false;
    }
    out.push(tag);
    push_be32(out, t.len() as u32);
    let ghost start = out@;
    let mut k: usize = 0;
    while k < t.len()
        invariant
            k <= t@.len(),
            out@ == start + t@.subrange(0, k as int),
        decreases t@.len() - k,
    {
        out.push(t[k]);
        k = k + 1;
        assert(out@ =~= start + t@.subrange(0, k as int));
    }
    assert(t@.subrange(0, t@.len() as int) =~= t@);
    assert(final(out)@ =~= old(out)@ + enc_bytes(tag, t@));
    true
}

fn bytes_equal(a: &Vec<u8>, b: &Vec<u8>) -> (r: bool)
    ensures
        r == (a@ == b@),
{
    if a.len() != b.len() {
        return false;
    }
    let mut k: usize = 0;
    while k < a.len()
        invariant
            a@.len() == b@.len(),
            k <= a@.len(),
            a@.subrange(0, k as int) == b@.subrange(0, k as int),
        decreases a@.len() - k,
    {
        if a[k] != b[k] {
            assert(a@[k as int] != b@[k as int]);
            return false;
        }
        assert(a@.subrange(0, k + 1) =~= a@.subrange(0, k as int).push(a@[k as int]));
        assert(b@.subrange(0, k + 1) =~= b@.subrange(0, k as int).push(b@[k as int]));
        k = k + 1;
    }
    assert(a@ =~= a@.subrange(0, k as int));
    assert(b@ =~= b@.subrange(0, k as int));
    true
}

/// Whether `k` is the key of one of the first `upto` entries.
fn contains_key(entries: &Vec<(Vec<u8>, Value)>, upto: usize, k: &Vec<u8>) -> (r: bool)
    requires
        upto <= entries@.len(),
    ensures
        r == has_key(deep_entries(entries@).take(upto as int), k@),
{
    let ghost m = deep_entries(entries@).take(upto as int);
    let mut j: usize = 0;
    while j < upto
        invariant
            upto <= entries@.len(),
            m == deep_entries(entries@).take(upto as int),
            j <= upto,
            forall|jj: int| 0 <= jj < j ==> (#[trigger] m[jj]).0 != k@,
        decreases upto - j,
    {
        if bytes_equal(&entries[j].0, k) {
            assert(m[j as int].0 == k@);
            return true;
        }
        j = j + 1;
    }
    assert(!has_key(m, k@));
    false
}

/// Appends the encoding of `v`; refuses a value with a length that does
/// not fit in four bytes (what was appended by then stays).
pub fn encode_into(v: &Value, out: &mut Vec<u8>) -> (ok: bool)
    ensures
        ok == encodable(v.deep()),
        ok ==> final(out)@ == old(out)@ + enc(v.deep()),
    decreases v,
{
    match v {
        Value::Null => {
            out.push(TAG_NULL);
            true
        },
        Value::Bool(b) => {
            out.push(if *b { TAG_TRUE } else { TAG_FALSE });
            true
        },
        Value::Int(x) => {
            out.push(TAG_INT);
            push_be64(out, #[verifier::truncate] (*x as u64));
            assert(final(out)@ =~= old(out)@ + enc(v.deep()));
            true
        },
        Value::Float(x) => {
            out.push(TAG_FLOAT);
            push_be64(out, *x);
            assert(final(out)@ =~= old(out)@ + enc(v.deep()));
            true
        },
        Value::Text(t) => push_bytes(out, TAG_TEXT, t),
        Value::Binary(t) => push_bytes(out, TAG_BINARY, t),
        Value::List(items) => {
            if items.len() > 0xffff_ffffusize {
                return false;
            }
            let ghost s = deep_items(items@);
            out.push(TAG_LIST);
            push_be32(out, items.len() as u32);
            let ghost start = out@;
            let mut i: usize = 0;
            while i < items.len()
                invariant
                    *v == Value::List(*items),
                    s == deep_items(items@),
                    i <= items@.len(),
                    out@ == start + item_encs(s).take(i as int).flatten(),
                    forall|j: int| 0 <= j < i ==> encodable(#[trigger] s[j]),
                decreases items@.len() - i,
            {
                proof {
                    vstd::std_specs::vec::axiom_vec_index_decreases(*items, i as int);
                }
                if !encode_into(&items[i], out) {
                    assert(!encodable(s[i as int]));
                    assert(v.deep() == Node::List(s));
                    assert(!items_encodable(s));
                    return false;
                }
                proof {
                    assert(item_encs(s).take(i + 1) =~= item_encs(s).take(i as int).push(
                        enc(s[i as int]),
                    ));
                    item_encs(s).take(i as int).lemma_flatten_push(enc(s[i as int]));
                }
                i = i + 1;
            }
            assert(item_encs(s).take(i as int) =~= item_encs(s));
            assert(final(out)@ =~= old(out)@ + enc(v.deep()));
            true
        },
        Value::Mapping(entries) => {
            if entries.len() > 0xffff_ffffusize {
                return false;
            }
            let ghost m = deep_entries(entries@);
            out.push(TAG_MAP);
            push_be32(out, entries.len() as u32);
            let ghost start = out@;
            let mut i: usize = 0;
            while i < entries.len()
                invariant
                    *v == Value::Mapping(*entries),
                    m == deep_entries(entries@),
                    i <= entries@.len(),
                    out@ == start + entry_encs(m).take(i as int).flatten(),
                    forall|j: int|
                        0 <= j < i ==> (#[trigger] m[j]).0.len() <= u32::MAX && encodable(m[j].1),
                    keys_unique(m.take(i as int)),
                decreases entries@.len() - i,
            {
                if contains_key(entries, i, &entries[i].0) {
                    proof {
                        let j = choose|j: int|
                            0 <= j < i && (#[trigger] m.take(i as int)[j]).0 == m[i as int].0;
                        assert(m[j].0 == m[i as int].0);
                        assert(!keys_unique(m));
                    }
                    return false;
                }
                assert(keys_unique(m.take(i + 1))) by {
                    assert forall|x: int, y: int| 0 <= x < y < i + 1 implies (#[trigger] m.take(
                        i + 1,
                    )[x]).0 != (#[trigger] m.take(i + 1)[y]).0 by {
                        if y < i {
                            assert(m.take(i as int)[x] == m.take(i + 1)[x]);
                            assert(m.take(i as int)[y] == m.take(i + 1)[y]);
                        } else {
                            assert(m.take(i as int)[x] == m[x]);
                        }
                    }
                }
                let ghost before = out@;
                assert(v.deep() == Node::Mapping(m));
                if !push_bytes(out, TAG_TEXT, &entries[i].0) {
                    assert(!((m[i as int]).0.len() <= u32::MAX));
                    assert(!entries_encodable(m));
                    return false;
                }
                proof {
                    vstd::std_specs::vec::axiom_vec_index_decreases(*entries, i as int);
                    assert(decreases_to!(*v => entries@[i as int].1));
                }
                if !encode_into(&entries[i].1, out) {
                    assert(!encodable(m[i as int].1));
                    assert(!entries_encodable(m));
                    return false;
                }
                proof {
                    assert(out@ =~= before + entry_encs(m)[i as int]);
                    assert(entry_encs(m).take(i + 1) =~= entry_encs(m).take(i as int).push(
                        entry_encs(m)[i as int],
                    ));
                    entry_encs(m).take(i as int).lemma_flatten_push(entry_encs(m)[i as int]);
                }
                i = i + 1;
            }
            assert(entry_encs(m).take(i as int) =~= entry_encs(m));
            assert(m.take(i as int) =~= m);
            assert(final(out)@ =~= old(out)@ + enc(v.deep()));
            true
        },
    }
}

/// Encodes a value; `None` where a length does not fit in four bytes.
pub fn encode(v: &Value) -> (r: Option<Vec<u8>>)
    ensures
        r is Some <==> encodable(v.deep()),
        r matches Some(b) ==> b@ == enc(v.deep()),
{
    let mut out: Vec<u8> = Vec::new();
    if encode_into(v, &mut out) {
        assert(out@ =~= enc(v.deep()));
        Some(out)
    } else {
        None
    }
}

fn read_u32(b: &[u8], p: usize) -> (r: u32)
    requires
        p + 4 <= b@.len(),
    ensures
        r == read32(b@, p as int),
{
    ((b[p] as u32) << 24u32) | ((b[p + 1] as u32) << 16u32) | ((b[p + 2] as u32) << 8u32) | (b[p
        + 3] as u32)
}

fn read_u64(b: &[u8], p: usize) -> (r: u64)
    requires
        p + 8 <= b@.len(),
    ensures
        r == read64(b@, p as int),
{
    ((b[p] as u64) << 56u64) | ((b[p + 1] as u64) << 48u64) | ((b[p + 2] as u64) << 40u64) | ((b[p
        + 3] as u64) << 32u64) | ((b[p + 4] as u64) << 24u64) | ((b[p + 5] as u64) << 16u64) | ((b[p
        + 6] as u64) << 8u64) | (b[p + 7] as u64)
}

/// Reads a length-prefixed byte string at `p`.
fn read_bytes(b: &[u8], p: usize) -> (r: Option<(Vec<u8>, usize)>)
    ensures
        match parse_bytes(b@, p as int) {
            Some((t, e)) => r matches Some((v, e2)) && v@ == t && e2 == e,
            None => r is None,
        },
{
    if p > b.len() || b.len() - p < 4 {
        return None;
    }
    let n = read_u32(b, p) as usize;
    if b.len() - (p + 4) < n {
        return None;
    }
    let start = p + 4;
    let end = start + n;
    let mut t: Vec<u8> = Vec::new();
    let mut k: usize = 0;
    while k < n
        invariant
            end == start + n,
            start + n <= b@.len(),
            k <= n,
            t@ == b@.subrange(start as int, start + k),
        decreases n - k,
    {
        t.push(b[start + k]);
        k = k + 1;
        assert(t@ =~= b@.subrange(start as int, start + k));
    }
    Some((t, start + n))
}

/// Reads one value at `p`, giving it and the position after it.
pub fn parse_at(b: &[u8], p: usize) -> (r: Option<(Value, usize)>)
    ensures
        match parse(b@, p as int) {
            Some((n, e)) => r matches Some((v, e2)) && v.deep() == n && e2 == e,
            None => r is None,
        },
    decreases b@.len() - p,
{
    if p >= b.len() {
        return None;
    }
    let tag = b[p];
    if tag == TAG_NULL {
        Some((Value::Null, p + 1))
    } else if tag == TAG_FALSE {
        Some((Value::Bool(false), p + 1))
    } else if tag == TAG_TRUE {
        Some((Value::Bool(true), p + 1))
    } else if tag == TAG_INT || tag == TAG_FLOAT {
        if b.len() - p < 9 {
            return None;
        }
        let x = read_u64(b, p + 1);
        if tag == TAG_INT {
            Some((Value::Int(#[verifier::truncate] (x as i64)), p + 9))
        } else {
            Some((Value::Float(x), p + 9))
        }
    } else if tag == TAG_TEXT || tag == TAG_BINARY {
        match read_bytes(b, p + 1) {
            Some((t, e)) => if tag == TAG_TEXT {
                Some((Value::Text(t), e))
            } else {
                Some((Value::Binary(t), e))
            },
            None => None,
        }
    } else if tag == TAG_LIST {
        if b.len() - p < 5 {
            return None;
        }
        let c = read_u32(b, p + 1);
        let mut items: Vec<Value> = Vec::new();
        let mut cur: usize = p + 5;
        let mut k: u32 = 0;
        assert(deep_items(items@) =~= Seq::<Node>::empty());
        while k < c
            invariant
                p < b@.len(),
                b@[p as int] == TAG_LIST,
                c == read32(b@, p + 1),
                p + 5 <= cur <= b@.len(),
                k <= c,
                parse_items(b@, p + 5, c as int, Seq::empty()) == parse_items(
                    b@,
                    cur as int,
                    c - k,
                    deep_items(items@),
                ),
            decreases c - k,
        {
            match parse_at(b, cur) {
                None => return None,
                Some((v, e)) => {
                    if !(cur < e && e <= b.len()) {
                        return None;
                    }
                    let ghost before = items@;
                    items.push(v);
                    assert(deep_items(items@) =~= deep_items(before).push(v.deep()));
                    cur = e;
                    k = k + 1;
                },
            }
        }
        proof {
            assert(deep_items(Seq::<Value>::empty()) =~= Seq::<Node>::empty());
        }
        Some((Value::List(items), cur))
    } else if tag == TAG_MAP {
        if b.len() - p < 5 {
            return None;
        }
        let c = read_u32(b, p + 1);
        let mut entries: Vec<(Vec<u8>, Value)> = Vec::new();
        let mut cur: usize = p + 5;
        let mut k: u32 = 0;
        assert(deep_entries(entries@) =~= Seq::<(Seq<u8>, Node)>::empty());
        while k < c
            invariant
                p < b@.len(),
                b@[p as int] == TAG_MAP,
                c == read32(b@, p + 1),
                p + 5 <= cur <= b@.len(),
                k <= c,
                parse_entries(b@, p + 5, c as int, Seq::empty()) == parse_entries(
                    b@,
                    cur as int,
                    c - k,
                    deep_entries(entries@),
                ),
            decreases c - k,
        {
            if cur >= b.len() || b[cur] != TAG_TEXT {
                return None;
            }
            match read_bytes(b, cur + 1) {
                None => return None,
                Some((key, e1)) => {
                    if !(cur < e1 && e1 <= b.len()) {
                        return None;
                    }
                    if contains_key(&entries, entries.len(), &key) {
                        assert(deep_entries(entries@).take(entries@.len() as int) =~= deep_entries(
                            entries@,
                        ));
                        return None;
                    }
                    assert(deep_entries(entries@).take(entries@.len() as int) =~= deep_entries(
                        entries@,
                    ));
                    match parse_at(b, e1) {
                        None => return None,
                        Some((v, e2)) => {
                            if !(e1 < e2 && e2 <= b.len()) {
                                return None;
                            }
                            let ghost before = entries@;
                            let ghost kv = key@;
                            entries.push((key, v));
                            assert(deep_entries(entries@) =~= deep_entries(before).push(
                                (kv, v.deep()),
                            ));
                            cur = e2;
                            k = k + 1;
                        },
                    }
                },
            }
        }
        proof {
            assert(deep_entries(Seq::<(Vec<u8>, Value)>::empty()) =~= Seq::<
                (Seq<u8>, Node),
            >::empty());
        }
        Some((Value::Mapping(entries), cur))
    } else {
        None
    }
}

/// Decodes a whole byte string: `None` where it is not exactly the
/// encoding of one value.
pub fn decode(b: &[u8]) -> (r: Option<Value>)
    ensures
        r is None <==> decode_spec(b@) is None,
        r matches Some(v) ==> decode_spec(b@) == Some(v.deep()),
        r matches Some(v) ==> encodable(v.deep()) && enc(v.deep()) == b@,
{
    proof {
        lemma_decode_sound(b@);
    }
    match parse_at(b, 0) {
        Some((v, e)) => if e == b.len() {
            Some(v)
        } else {
            None
        },
        None => None,
    }
}

} // verus!