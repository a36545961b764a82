use vstd::prelude::*;

use crate::parser::{
    all_digits, decimal_value, digits_value, find_crlf, is_digit, parse_at, parse_items, Parsed,
};
use crate::resp::{
    all_well_formed, crlf, decimal, digits_of, encoding, encoding_all, is_crlf_at, no_crlf,
    well_formed, Resp,
};

verus! {

broadcast use {vstd::seq::axiom_seq_index_decreases, vstd::seq::axiom_seq_subrange_decreases};

/// The bytes of `b` from `pos` on agree with `e` as far as both go.
pub open spec fn agrees(b: Seq<u8>, pos: int, e: Seq<u8>) -> bool {
    forall|k: int| 0 <= k < e.len() && pos + k < b.len() ==> b[pos + k] == #[trigger] e[k]
}

proof fn lemma_agrees_split(b: Seq<u8>, pos: int, a: Seq<u8>, c: Seq<u8>)
    requires
        agrees(b, pos, a + c),
    ensures
        agrees(b, pos, a),
        agrees(b, pos + a.len(), c),
{
    assert forall|k: int| 0 <= k < a.len() && pos + k < b.len() implies b[pos + k] == #[trigger] a[k] by {
        assert((a + c)[k] == a[k]);
    }
    assert forall|k: int| 0 <= k < c.len() && pos + a.len() + k < b.len() implies b[pos + a.len()
        + k] == #[trigger] c[k] by {
        assert((a + c)[a.len() + k] == c[k]);
    }
}

proof fn lemma_digits_of(n: nat)
    ensures
        digits_of(n).len() >= 1,
        all_digits(digits_of(n)),
        digits_value(digits_of(n)) == n,
    decreases n,
{
    let d = digits_of(n);
    if n < 10 {
        assert(d.drop_last() =~= Seq::<u8>::empty());
        assert(d.last() == (48 + n) as u8);
        assert(digits_value(d) == digits_value(d.drop_last()) * 10 + (d.last() - 48) as nat);
    } else {
        lemma_digits_of(n / 10);
        assert(d.drop_last() =~= digits_of(n / 10));
        assert(d.last() == (48 + n % 10) as u8);
        assert(digits_value(d) == digits_value(d.drop_last()) * 10 + (d.last() - 48) as nat);
        assert((n / 10) * 10 + n % 10 == n);
    }
}

proof fn lemma_decimal(i: int)
    requires
        i64::MIN <= i <= i64::MAX,
    ensures
        decimal(i).len() >= 1,
        decimal_value(decimal(i)) == Some(i),
        forall|j: int| 0 <= j < decimal(i).len() ==> #[trigger] decimal(i)[j] != 13u8,
{
    let s = decimal(i);
    if i < 0 {
        lemma_digits_of((-i) as nat);
        assert(s.drop_first() =~= digits_of((-i) as nat));
        assert(!is_digit(s[0]));
        assert forall|j: int| 0 <= j < s.len() implies #[trigger] s[j] != 13u8 by {
            if j > 0 {
                assert(s[j] == digits_of((-i) as nat)[j - 1]);
            }
        }
    } else {
        lemma_digits_of(i as nat);
    }
}

proof fn lemma_find_crlf_at(b: Seq<u8>, from: int, i: int)
    requires
        0 <= from <= i,
        is_crlf_at(b, i),
        forall|j: int| from <= j < i ==> !#[trigger] is_crlf_at(b, j),
    ensures
        find_crlf(b, from) == Some(i),
    decreases i - from,
{
    if from < i {
        assert(!is_crlf_at(b, from));
        lemma_find_crlf_at(b, from + 1, i);
    }
}

proof fn lemma_find_crlf_none(b: Seq<u8>, from: int)
    requires
        0 <= from,
        forall|j: int| from <= j ==> !#[trigger] is_crlf_at(b, j),
    ensures
        find_crlf(b, from) is None,
    decreases b.len() - from,
{
    if from + 1 < b.len() {
        assert(!is_crlf_at(b, from));
        lemma_find_crlf_none(b, from + 1);
    }
}

/// Where a value's first line ends, when `b` from `pos` on agrees with a byte
/// `t`, then `line`, then CR LF.
proof fn lemma_header(b: Seq<u8>, pos: int, t: u8, line: Seq<u8>)
    requires
        0 <= pos,
        no_crlf(line),
        agrees(b, pos, seq![t] + line + crlf()),
    ensures
        b.len() >= pos + line.len() + 3 ==> find_crlf(b, pos + 1) == Some(pos + 1 + line.len()),
        b.len() < pos + line.len() + 3 ==> find_crlf(b, pos + 1) is None,
        b.len() > pos ==> b[pos] == t,
        b.len() >= pos + line.len() + 3 ==> b.subrange(pos + 1, pos + 1 + line.len()) == line,
{
    let h = seq![t] + line + crlf();
    let e = pos + 1 + line.len();
    assert forall|j: int| pos + 1 <= j < e implies !#[trigger] is_crlf_at(b, j) by {
        if is_crlf_at(b, j) {
            assert(b[j] == h[j - pos]);
            assert(b[j + 1] == h[j + 1 - pos]);
            if j + 1 < e {
                assert(is_crlf_at(line, j - pos - 1));
            }
        }
    }
    if b.len() > pos {
        assert(b[pos] == h[0]);
    }
    if b.len() >= pos + line.len() + 3 {
        assert(b[e] == h[e - pos]);
        assert(b[e + 1] == h[e + 1 - pos]);
        lemma_find_crlf_at(b, pos + 1, e);
        assert forall|k: int| 0 <= k < line.len() implies b.subrange(pos + 1, e)[k] == line[k] by {
            assert(b[pos + 1 + k] == h[1 + k]);
        }
        assert(b.subrange(pos + 1, e) =~= line);
    } else {
        assert forall|j: int| pos + 1 <= j implies !#[trigger] is_crlf_at(b, j) by {
            if e <= j && is_crlf_at(b, j) {
                assert(b[e] == h[e - pos]);
            }
        }
        lemma_find_crlf_none(b, pos + 1);
    }
}

proof fn lemma_no_cr_no_crlf(s: Seq<u8>)
    requires
        forall|j: int| 0 <= j < s.len() ==> #[trigger] s[j] != 13u8,
    ensures
        no_crlf(s),
{
    assert forall|j: int| !#[trigger] is_crlf_at(s, j) by {
        if is_crlf_at(s, j) {
            assert(s[j] != 13u8);
        }
    }
}

/// A well-formed value's encoding, found whole at `pos`, parses back to the value.
pub proof fn lemma_parse_whole(b: Seq<u8>, pos: int, v: Resp)
    requires
        well_formed(v),
        0 <= pos,
        pos + encoding(v).len() <= b.len(),
        agrees(b, pos, encoding(v)),
    ensures
        parse_at(b, pos) == Parsed::Complete(pos + encoding(v).len(), v),
{
    lemma_parse_cases(b, pos, v);
}

/// The encoding of a well-formed value, cut short at the end of `b`, parses as
/// incomplete.
pub proof fn lemma_parse_cut(b: Seq<u8>, pos: int, v: Resp)
    requires
        well_formed(v),
        0 <= pos <= b.len(),
        b.len() < pos + encoding(v).len(),
        agrees(b, pos, encoding(v)),
    ensures
        parse_at(b, pos) == Parsed::Incomplete,
{
    lemma_parse_cases(b, pos, v);
}

proof fn lemma_parse_cases(b: Seq<u8>, pos: int, v: Resp)
    requires
        well_formed(v),
        0 <= pos <= b.len(),
        agrees(b, pos, encoding(v)),
    ensures
        pos + encoding(v).len() <= b.len() ==> parse_at(b, pos) == Parsed::Complete(
            pos + encoding(v).len(),
            v,
        ),
        b.len() < pos + encoding(v).len() ==> parse_at(b, pos) == Parsed::Incomplete,
    decreases v, 0int,
{
    let e = encoding(v);
    if b.len() > pos {
        match v {
            Resp::Simple(s) => {
                assert(e == seq![43u8] + s + crlf());
                lemma_header(b, pos, 43u8, s);
            },
            Resp::Error(s) => {
                assert(e == seq![45u8] + s + crlf());
                lemma_header(b, pos, 45u8, s);
            },
            Resp::Integer(i) => {
                lemma_decimal(i);
                lemma_no_cr_no_crlf(decimal(i));
                lemma_header(b, pos, 58u8, decimal(i));
            },
            Resp::Bulk(s) => {
                let n = s.len() as int;
                let line = decimal(n);
                lemma_decimal(n);
                lemma_no_cr_no_crlf(line);
                assert(e =~= (seq![36u8] + line + crlf()) + (s + crlf()));
                lemma_agrees_split(b, pos, seq![36u8] + line + crlf(), s + crlf());
                lemma_header(b, pos, 36u8, line);
                let start = pos + line.len() + 3;
                if b.len() >= pos + e.len() {
                    let tail = s + crlf();
                    assert(b[start + n] == tail[n]);
                    assert(b[start + n + 1] == tail[n + 1]);
                    assert forall|k: int| 0 <= k < n implies b.subrange(start, start + n)[k] == s[k] by {
                        assert(b[start + k] == tail[k]);
                    }
                    assert(b.subrange(start, start + n) =~= s);
                }
            },
            Resp::NullBulk => {
                lemma_decimal(-1);
                assert(decimal(-1) =~= seq![45u8, 49u8]);
                assert(e =~= seq![36u8] + decimal(-1) + crlf());
                lemma_no_cr_no_crlf(decimal(-1));
                lemma_header(b, pos, 36u8, decimal(-1));
            },
            Resp::Array(items) => {
                let n = items.len() as int;
                let line = decimal(n);
                lemma_decimal(n);
                lemma_no_cr_no_crlf(line);
                let head = seq![42u8] + line + crlf();
                assert(e =~= head + encoding_all(items));
                lemma_agrees_split(b, pos, head, encoding_all(items));
                lemma_header(b, pos, 42u8, line);
                if b.len() >= pos + head.len() {
                    lemma_items_cases(b, pos + head.len(), items);
                }
            },
            Resp::NullArray => {
                lemma_decimal(-1);
                assert(decimal(-1) =~= seq![45u8, 49u8]);
                assert(e =~= seq![42u8] + decimal(-1) + crlf());
                lemma_no_cr_no_crlf(decimal(-1));
                lemma_header(b, pos, 42u8, decimal(-1));
            },
        }
    }
}

proof fn lemma_items_cases(b: Seq<u8>, pos: int, items: Seq<Resp>)
    requires
        all_well_formed(items),
        0 <= pos <= b.len(),
        agrees(b, pos, encoding_all(items)),
    ensures
        pos + encoding_all(items).len() <= b.len() ==> parse_items(b, pos, items.len() as int)
            == Parsed::Complete(pos + encoding_all(items).len(), Resp::Array(items)),
        b.len() < pos + encoding_all(items).len() ==> parse_items(b, pos, items.len() as int)
            == Parsed::Incomplete,
    decreases items, 1int,
{
    if items.len() == 0 {
        assert(items =~= Seq::<Resp>::empty());
    } else {
        let first = items[0];
        let rest = items.drop_first();
        let l0 = encoding(first).len();
        lemma_agrees_split(b, pos, encoding(first), encoding_all(rest));
        lemma_parse_cases(b, pos, first);
        assert(encoding(first).len() >= 1) by {
            reveal_with_fuel(encoding, 1);
        }
        if pos + l0 <= b.len() {
            lemma_items_cases(b, pos + l0, rest);
            assert(seq![first] + rest =~= items);
        }
    }
}

/// Encoding a well-formed value and parsing the bytes gives the value back,
/// with all the bytes taken.
pub proof fn lemma_round_trip(v: Resp)
    requires
        well_formed(v),
    ensures
        parse_at(encoding(v), 0) == Parsed::Complete(encoding(v).len() as int, v),
{
    lemma_parse_whole(encoding(v), 0, v);
}

/// Any strict prefix of a well-formed value's encoding parses as incomplete,
/// never as an error; the whole encoding then parses to the value.
pub proof fn lemma_prefix_incomplete(v: Resp, k: int)
    requires
        well_formed(v),
        0 <= k < encoding(v).len(),
    ensures
        parse_at(encoding(v).subrange(0, k), 0) == Parsed::Incomplete,
        parse_at(encoding(v), 0) == Parsed::Complete(encoding(v).len() as int, v),
{
    lemma_parse_cut(encoding(v).subrange(0, k), 0, v);
    lemma_round_trip(v);
}

} // verus!
