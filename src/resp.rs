use vstd::prelude::*;

verus! {

broadcast use {vstd::std_specs::vec::axiom_vec_decreases_to_view, vstd::std_specs::vec::axiom_vec_index_decreases, vstd::seq::axiom_seq_index_decreases, vstd::seq::axiom_seq_subrange_decreases};

/// A value of the RESP wire protocol.
#[derive(Debug)]
pub enum RespValue {
    SimpleString(Vec<u8>),
    Error(Vec<u8>),
    Integer(i64),
    BulkString(Vec<u8>),
    NullBulkString,
    Array(Vec<RespValue>),
    NullArray,
}

/// Mathematical model of a RESP value.
pub enum Resp {
    Simple(Seq<u8>),
    Error(Seq<u8>),
    Integer(int),
    Bulk(Seq<u8>),
    NullBulk,
    Array(Seq<Resp>),
    NullArray,
}

/// Why a buffer cannot hold a RESP value.
#[derive(Clone, Copy, Debug, PartialEq, Eq, Structural)]
pub enum ProtocolError {
    /// The leading byte names no known value type.
    UnknownPrefix,
    /// An integer value is not a decimal number that fits in 64 bits.
    InvalidInteger,
    /// A bulk string or array length is not a decimal number, or is below -1.
    InvalidLength,
    /// The bytes after a bulk string's payload are not CR LF.
    MissingTerminator,
}

pub open spec fn views(s: Seq<RespValue>) -> Seq<Resp>
    decreases s,
{
    if s.len() == 0 {
        Seq::empty()
    } else {
        views(s.drop_last()).push(resp_view(s.last()))
    }
}

pub open spec fn resp_view(v: RespValue) -> Resp
    decreases v,
{
    match v {
        RespValue::SimpleString(s) => Resp::Simple(s@),
        RespValue::Error(s) => Resp::Error(s@),
        RespValue::Integer(i) => Resp::Integer(i as int),
        RespValue::BulkString(s) => Resp::Bulk(s@),
        RespValue::NullBulkString => Resp::NullBulk,
        RespValue::Array(items) => Resp::Array(views(items@)),
        RespValue::NullArray => Resp::NullArray,
    }
}

impl View for RespValue {
    type V = Resp;

    open spec fn view(&self) -> Resp {
        resp_view(*self)
    }
}

pub proof fn lemma_views_index(s: Seq<RespValue>)
    ensures
        views(s).len() == s.len(),
        forall|i: int| 0 <= i < s.len() ==> #[trigger] views(s)[i] == s[i]@,
    decreases s.len(),
{
    if s.len() > 0 {
        lemma_views_index(s.drop_last());
    }
}

pub open spec fn crlf() -> Seq<u8> {
    seq![13u8, 10u8]
}

/// Decimal digits of a natural number, most significant first, without leading zeros.
pub open spec fn digits_of(n: nat) -> Seq<u8>
    decreases n,
{
    if n < 10 {
        seq![(48 + n) as u8]
    } else {
        digits_of(n / 10).push((48 + n % 10) as u8)
    }
}

/// Decimal text of an integer, with a leading '-' when negative.
pub open spec fn decimal(i: int) -> Seq<u8> {
    if i < 0 {
        seq![45u8] + digits_of((-i) as nat)
    } else {
        digits_of(i as nat)
    }
}

/// The wire encoding of a value.
pub open spec fn encoding(v: Resp) -> Seq<u8>
    decreases v,
{
    match v {
        Resp::Simple(s) => seq![43u8] + s + crlf(),
        Resp::Error(s) => seq![45u8] + s + crlf(),
        Resp::Integer(i) => seq![58u8] + decimal(i) + crlf(),
        Resp::Bulk(s) => seq![36u8] + decimal(s.len() as int) + crlf() + s + crlf(),
        Resp::NullBulk => seq![36u8, 45u8, 49u8, 13u8, 10u8],
        Resp::Array(items) => seq![42u8] + decimal(items.len() as int) + crlf() + encoding_all(
            items,
        ),
        Resp::NullArray => seq![42u8, 45u8, 49u8, 13u8, 10u8],
    }
}

/// The encodings of a sequence of values, one after the other.
pub open spec fn encoding_all(items: Seq<Resp>) -> Seq<u8>
    decreases items,
{
    if items.len() == 0 {
        Seq::empty()
    } else {
        encoding(items[0]) + encoding_all(items.drop_first())
    }
}

/// A CR LF pair starts at index `i` of `b`.
pub open spec fn is_crlf_at(b: Seq<u8>, i: int) -> bool {
    0 <= i && i + 1 < b.len() && b[i] == 13u8 && b[i + 1] == 10u8
}

/// No CR LF pair stands inside `s`.
pub open spec fn no_crlf(s: Seq<u8>) -> bool {
    forall|j: int| !#[trigger] is_crlf_at(s, j)
}

/// A value that the wire format can carry: line payloads hold no CR LF, and
/// integers and lengths fit in 64 signed bits.
pub open spec fn well_formed(v: Resp) -> bool
    decreases v,
{
    match v {
        Resp::Simple(s) => no_crlf(s),
        Resp::Error(s) => no_crlf(s),
        Resp::Integer(i) => i64::MIN <= i <= i64::MAX,
        Resp::Bulk(s) => s.len() <= i64::MAX,
        Resp::NullBulk => true,
        Resp::Array(items) => items.len() <= i64::MAX && all_well_formed(items),
        Resp::NullArray => true,
    }
}

pub open spec fn all_well_formed(items: Seq<Resp>) -> bool
    decreases items,
{
    if items.len() == 0 {
        true
    } else {
        well_formed(items[0]) && all_well_formed(items.drop_first())
    }
}

pub proof fn lemma_encoding_all_push(s: Seq<Resp>, x: Resp)
    ensures
        encoding_all(s.push(x)) == encoding_all(s) + encoding(x),
    decreases s.len(),
{
    if s.len() == 0 {
        let e = s.push(x);
        assert(e.drop_first() =~= Seq::<Resp>::empty());
        assert(e[0] == x);
        assert(encoding_all(e.drop_first()) == Seq::<u8>::empty());
        assert(encoding_all(s) == Seq::<u8>::empty());
        assert(encoding_all(e) =~= encoding_all(s) + encoding(x));
    } else {
        assert(s.push(x).drop_first() =~= s.drop_first().push(x));
        lemma_encoding_all_push(s.drop_first(), x);
        assert(encoding_all(s.push(x)) =~= encoding_all(s) + encoding(x));
    }
}

fn push_digits(out: &mut Vec<u8>, n: u64)
    ensures
        final(out)@ == old(out)@ + digits_of(n as nat),
    decreases n,
{
    if n >= 10 {
        push_digits(out, n / 10);
    }
    out.push((48 + n % 10) as u8);
    proof {
        if n >= 10 {
            assert(old(out)@ + digits_of(n as nat) =~= (old(out)@ + digits_of((n / 10) as nat)).push(
                (48 + n % 10) as u8,
            ));
        } else {
            assert(old(out)@ + digits_of(n as nat) =~= old(out)@.push((48 + n % 10) as u8));
        }
    }
}

fn push_decimal(out: &mut Vec<u8>, i: i64)
    ensures
        final(out)@ == old(out)@ + decimal(i as int),
{
    if i < 0 {
        out.push(45u8);
        let m: u64 = (-(i + 1)) as u64 + 1;
        push_digits(out, m);
        assert(final(out)@ =~= old(out)@ + decimal(i as int));
    } else {
        push_digits(out, i as u64);
    }
}

fn push_crlf(out: &mut Vec<u8>)
    ensures
        final(out)@ == old(out)@ + crlf(),
{
    out.push(13u8);
    out.push(10u8);
    assert(final(out)@ =~= old(out)@ + crlf());
}

fn push_bytes(out: &mut Vec<u8>, data: &Vec<u8>)
    ensures
        final(out)@ == old(out)@ + data@,
{
    let mut k: usize = 0;
    while k < data.len()
        invariant
            k <= data.len(),
            out@ == old(out)@ + data@.subrange(0, k as int),
        decreases data.len() - k,
    {
        out.push(data[k]);
        k = k + 1;
        assert(out@ =~= old(out)@ + data@.subrange(0, k as int));
    }
    assert(data@.subrange(0, k as int) =~= data@);
}

impl RespValue {
    /// Appends the wire encoding of this value to `out`.
    pub fn encode_into(&self, out: &mut Vec<u8>)
        ensures
            final(out)@ == old(out)@ + encoding(self@),
        decreases self,
    {
        let ghost start = out@;
        match self {
            RespValue::SimpleString(s) => {
                out.push(43u8);
                push_bytes(out, s);
                push_crlf(out);
            },
            RespValue::Error(s) => {
                out.push(45u8);
                push_bytes(out, s);
                push_crlf(out);
            },
            RespValue::Integer(i) => {
                out.push(58u8);
                push_decimal(out, *i);
                push_crlf(out);
            },
            RespValue::BulkString(s) => {
                out.push(36u8);
                push_digits(out, s.len() as u64);
                push_crlf(out);
                push_bytes(out, s);
                push_crlf(out);
            },
            RespValue::NullBulkString => {
                out.push(36u8);
                out.push(45u8);
                out.push(49u8);
                push_crlf(out);
            },
            RespValue::Array(items) => {
                out.push(42u8);
                push_digits(out, items.len() as u64);
                push_crlf(out);
                let ghost header = out@;
                proof {
                    lemma_views_index(items@);
                }
                let mut k: usize = 0;
                #[verifier::loop_isolation(false)]
                while k < items.len()
                    invariant
                        k <= items.len(),
                        views(items@).len() == items@.len(),
                        forall|j: int| 0 <= j < items@.len() ==> #[trigger] views(items@)[j] == items@[j]@,
                        out@ == header + encoding_all(views(items@).subrange(0, k as int)),
                    decreases items.len() - k,
                {
                    items[k].encode_into(out);
                    proof {
                        let vs = views(items@);
                        assert(vs.subrange(0, k + 1) =~= vs.subrange(0, k as int).push(vs[k as int]));
                        lemma_encoding_all_push(vs.subrange(0, k as int), vs[k as int]);
                    }
                    k = k + 1;
                }
                assert(views(items@).subrange(0, k as int) =~= views(items@));
            },
            RespValue::NullArray => {
                out.push(42u8);
                out.push(45u8);
                out.push(49u8);
                push_crlf(out);
            },
        }
        assert(out@ =~= start + encoding(self@));
    }

    /// The wire encoding of this value.
    pub fn encode(&self) -> (r: Vec<u8>)
        ensures
            r@ == encoding(self@),
    {
        let mut out: Vec<u8> = Vec::new();
        self.encode_into(&mut out);
        assert(out@ =~= encoding(self@));
        out
    }
}

} // verus!
