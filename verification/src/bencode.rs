//! Bencode codec: the binary serialization used by torrent files and tracker
//! responses. A document is a value tree of byte strings, integers, lists and
//! dictionaries. `sp_value` is the grammar, written as a total specification
//! parser over the raw bytes; the executable decoder is proved to return
//! exactly what the grammar says.
use vstd::prelude::*;

verus! {

/// A bencode value tree.
#[derive(Debug)]
pub enum BValue {
    /// A raw byte string; keys are not guaranteed to be valid text.
    Bytes(Vec<u8>),
    /// An integer. Values outside `i64` are rejected by the decoder.
    Int(i64),
    List(Vec<BValue>),
    /// Key/value pairs in file order. Keys are raw byte strings.
    Dict(Vec<(Vec<u8>, BValue)>),
}

/// The mathematical model of a bencode value tree.
pub enum BNode {
    Bytes(Seq<u8>),
    Int(int),
    List(Seq<BNode>),
    Dict(Seq<(Seq<u8>, BNode)>),
}

pub open spec fn bview(v: BValue) -> BNode
    decreases v, 2int,
{
    match v {
        BValue::Bytes(b) => BNode::Bytes(b@),
        BValue::Int(i) => BNode::Int(i as int),
        BValue::List(items) => BNode::List(bview_seq(items@)),
        BValue::Dict(entries) => BNode::Dict(bview_entries(entries@)),
    }
}

pub open spec fn bview_seq(s: Seq<BValue>) -> Seq<BNode>
    decreases s, 1int,
{
    Seq::new(
        s.len(),
        (|i: int|
            if 0 <= i < s.len() {
                bview(s[i])
            } else {
                BNode::Int(0)
            }),
    )
}

pub open spec fn bview_entries(s: Seq<(Vec<u8>, BValue)>) -> Seq<(Seq<u8>, BNode)>
    decreases s, 1int,
{
    Seq::new(
        s.len(),
        (|i: int|
            if 0 <= i < s.len() {
                (s[i].0@, bview(s[i].1))
            } else {
                (Seq::<u8>::empty(), BNode::Int(0))
            }),
    )
}

/// ASCII digit.
pub open spec fn is_digit(b: u8) -> bool {
    48 <= b <= 57
}

/// End of the maximal digit run starting at `pos`.
pub open spec fn digits_end(s: Seq<u8>, pos: int) -> int
    decreases s.len() - pos,
{
    if 0 <= pos < s.len() && is_digit(s[pos]) {
        digits_end(s, pos + 1)
    } else {
        pos
    }
}

/// Decimal value of the digits `s[pos..end]`.
pub open spec fn dec_val(s: Seq<u8>, pos: int, end: int) -> int
    decreases end - pos,
{
    if end <= pos {
        0
    } else {
        dec_val(s, pos, end - 1) * 10 + (s[end - 1] - 48)
    }
}

pub proof fn lemma_digits_end(s: Seq<u8>, pos: int)
    requires
        0 <= pos <= s.len(),
    ensures
        pos <= digits_end(s, pos) <= s.len(),
        forall|j: int| pos <= j < digits_end(s, pos) ==> is_digit(#[trigger] s[j]),
        digits_end(s, pos) == s.len() || !is_digit(s[digits_end(s, pos)]),
    decreases s.len() - pos,
{
    if pos < s.len() && is_digit(s[pos]) {
        lemma_digits_end(s, pos + 1);
    }
}

/// The digit run ends exactly where the digits stop.
pub proof fn lemma_digits_end_is(s: Seq<u8>, pos: int, end: int)
    requires
        0 <= pos <= end <= s.len(),
        forall|j: int| pos <= j < end ==> is_digit(#[trigger] s[j]),
        end == s.len() || !is_digit(s[end]),
    ensures
        digits_end(s, pos) == end,
    decreases end - pos,
{
    if pos < end {
        lemma_digits_end_is(s, pos + 1, end);
    }
}

pub open spec fn pow10(n: nat) -> int
    decreases n,
{
    if n == 0 {
        1
    } else {
        10 * pow10((n - 1) as nat)
    }
}

pub proof fn lemma_dec_val_bound(s: Seq<u8>, pos: int, end: int)
    requires
        pos <= end,
        forall|j: int| pos <= j < end ==> is_digit(#[trigger] s[j]),
    ensures
        0 <= dec_val(s, pos, end) < pow10((end - pos) as nat),
    decreases end - pos,
{
    if end > pos {
        lemma_dec_val_bound(s, pos, end - 1);
    }
}

/// Largest digit-run length the decoder accepts; every such run fits in `u64`.
pub open spec fn max_digits() -> int {
    19
}

proof fn lemma_pow10_19()
    ensures
        pow10(19) == 10_000_000_000_000_000_000,
{
    reveal_with_fuel(pow10, 20);
}

/// Specification parser for a canonical decimal digit run at `pos`: at least
/// one digit, at most `max_digits()`, and no leading zero (`0` itself aside).
pub open spec fn sp_digits(s: Seq<u8>, pos: int) -> Result<(int, int), ()> {
    if !(0 <= pos < s.len() && is_digit(s[pos])) {
        Err(())
    } else {
        let dend = digits_end(s, pos);
        if dend - pos > max_digits() {
            Err(())
        } else if s[pos] == 48 && dend - pos > 1 {
            Err(())
        } else {
            Ok((dec_val(s, pos, dend), dend))
        }
    }
}

/// Specification parser for a byte string `<digits>:<bytes>` at `pos`.
/// `Err(off)` reports the offset of the first structural violation.
pub open spec fn sp_bstr(s: Seq<u8>, pos: int) -> Result<(Seq<u8>, int), int> {
    match sp_digits(s, pos) {
        Err(()) => Err(pos),
        Ok((n, dend)) => if !(dend < s.len() && s[dend] == 58) {  // ':'
            Err(dend)
        } else if dend + 1 + n > s.len() {
            Err(dend)
        } else {
            Ok((s.subrange(dend + 1, dend + 1 + n), dend + 1 + n))
        },
    }
}

/// Specification parser for an integer `i<digits>e` (optionally negative) at
/// `pos`, which must hold the byte `i`. Values outside `i64` are rejected.
pub open spec fn sp_int(s: Seq<u8>, pos: int) -> Result<(BNode, int), int> {
    let slen = s.len();
    let neg = pos + 1 < slen && s[pos + 1] == 45;  // '-'
    let dstart = if neg {
        pos + 2
    } else {
        pos + 1
    };
    match sp_digits(s, dstart) {
        Err(()) => Err(dstart),
        Ok((mag, dend)) => {
            let val = if neg {
                -mag
            } else {
                mag
            };
            if neg && mag == 0 {
                Err(dstart)
            } else if !(-0x8000_0000_0000_0000 <= val <= 0x7fff_ffff_ffff_ffff) {
                Err(dstart)
            } else if !(dend < s.len() && s[dend] == 101) {  // 'e'
                Err(dend)
            } else {
                Ok((BNode::Int(val), dend + 1))
            }
        },
    }
}

/// Specification parser for one bencode value at `pos`: the grammar of the
/// codec. `Err(off)` is the offset of the first structural violation.
pub open spec fn sp_value(s: Seq<u8>, pos: int) -> Result<(BNode, int), int>
    decreases s.len() - pos, 0int,
{
    if pos < 0 || pos >= s.len() {
        Err(pos)
    } else if s[pos] == 105 {  // 'i'
        sp_int(s, pos)
    } else if is_digit(s[pos]) {
        match sp_bstr(s, pos) {
            Ok((b, end)) => Ok((BNode::Bytes(b), end)),
            Err(off) => Err(off),
        }
    } else if s[pos] == 108 {  // 'l'
        match sp_list(s, pos + 1) {
            Ok((items, end)) => Ok((BNode::List(items), end)),
            Err(off) => Err(off),
        }
    } else if s[pos] == 100 {  // 'd'
        match sp_dict(s, pos + 1) {
            Ok((entries, end)) => Ok((BNode::Dict(entries), end)),
            Err(off) => Err(off),
        }
    } else {
        Err(pos)
    }
}

/// Specification parser for list items up to and including the closing `e`.
pub open spec fn sp_list(s: Seq<u8>, pos: int) -> Result<(Seq<BNode>, int), int>
    decreases s.len() - pos, 1int,
{
    if pos < 0 || pos >= s.len() {
        Err(pos)
    } else if s[pos] == 101 {  // 'e'
        Ok((Seq::empty(), pos + 1))
    } else {
        match sp_value(s, pos) {
            Err(off) => Err(off),
            Ok((t, p)) => {
                let q = if pos < p <= s.len() {
                    p
                } else {
                    pos + 1
                };
                match sp_list(s, q) {
                    Err(off) => Err(off),
                    Ok((rest, end)) => Ok((seq![t] + rest, end)),
                }
            },
        }
    }
}

/// Specification parser for dictionary entries up to and including the
/// closing `e`. Every key is a byte string; the order of entries is kept.
pub open spec fn sp_dict(s: Seq<u8>, pos: int) -> Result<(Seq<(Seq<u8>, BNode)>, int), int>
    decreases s.len() - pos, 1int,
{
    if pos < 0 || pos >= s.len() {
        Err(pos)
    } else if s[pos] == 101 {  // 'e'
        Ok((Seq::empty(), pos + 1))
    } else {
        match sp_bstr(s, pos) {
            Err(off) => Err(off),
            Ok((key, kp)) => {
                let kq = if pos < kp <= s.len() {
                    kp
                } else {
                    pos + 1
                };
                match sp_value(s, kq) {
                    Err(off) => Err(off),
                    Ok((t, p)) => {
                        let q = if kq < p <= s.len() {
                            p
                        } else if kq < s.len() {
                            kq + 1
                        } else {
                            s.len() as int
                        };
                        match sp_dict(s, q) {
                            Err(off) => Err(off),
                            Ok((rest, end)) => Ok((seq![(key, t)] + rest, end)),
                        }
                    },
                }
            },
        }
    }
}

/// A whole bencode document: one value spanning the entire input.
pub open spec fn spec_decode(s: Seq<u8>) -> Result<BNode, int> {
    match sp_value(s, 0) {
        Err(off) => Err(off),
        Ok((t, end)) => if end == s.len() {
            Ok(t)
        } else {
            Err(end)
        },
    }
}

/// On success the parser consumed at least one byte and stayed in bounds.
pub proof fn lemma_sp_range(s: Seq<u8>, pos: int)
    ensures
        sp_value(s, pos) matches Ok((t, p)) ==> pos < p <= s.len(),
        sp_list(s, pos) matches Ok((ts, p)) ==> pos < p <= s.len(),
        sp_dict(s, pos) matches Ok((es, p)) ==> pos < p <= s.len(),
    decreases s.len() - pos, 2int,
{
    if 0 <= pos < s.len() {
        if s[pos] == 105 {
            if pos + 1 < s.len() {
                lemma_digits_end(s, pos + 2);
            }
            lemma_digits_end(s, pos + 1);
        }
        if is_digit(s[pos]) {
            lemma_digits_end(s, pos);
            lemma_dec_val_bound(s, pos, digits_end(s, pos));
        }
        lemma_sp_range(s, pos + 1);
        // list continuation
        if s[pos] != 101 && !(sp_value(s, pos) is Err) {
            let p = sp_value(s, pos)->Ok_0.1;
            let q = if pos < p <= s.len() {
                p
            } else {
                pos + 1
            };
            lemma_sp_range_list(s, q);
        }
        // dict continuation
        if s[pos] != 101 && !(sp_bstr(s, pos) is Err) {
            lemma_digits_end(s, pos);
            let kp = sp_bstr(s, pos)->Ok_0.1;
            let kq = if pos < kp <= s.len() {
                kp
            } else {
                pos + 1
            };
            lemma_sp_range(s, kq);
            lemma_dec_val_bound(s, pos, digits_end(s, pos));
            if !(sp_value(s, kq) is Err) {
                let p = sp_value(s, kq)->Ok_0.1;
                let q = if kq < p <= s.len() {
                    p
                } else if kq < s.len() {
                    kq + 1
                } else {
                    s.len() as int
                };
                lemma_sp_range_dict(s, q);
            }
        }
    }
}

proof fn lemma_sp_range_list(s: Seq<u8>, pos: int)
    ensures
        sp_list(s, pos) matches Ok((ts, p)) ==> pos < p <= s.len(),
    decreases s.len() - pos, 3int,
{
    lemma_sp_range(s, pos);
}

proof fn lemma_sp_range_dict(s: Seq<u8>, pos: int)
    ensures
        sp_dict(s, pos) matches Ok((es, p)) ==> pos < p <= s.len(),
    decreases s.len() - pos, 3int,
{
    lemma_sp_range(s, pos);
}

proof fn lemma_digits_end_at_least(s: Seq<u8>, pos: int, k: int)
    requires
        0 <= pos <= k <= s.len(),
        forall|j: int| pos <= j < k ==> is_digit(#[trigger] s[j]),
    ensures
        digits_end(s, pos) >= k,
    decreases k - pos,
{
    if pos < k {
        lemma_digits_end_at_least(s, pos + 1, k);
    } else {
        lemma_digits_end(s, pos);
    }
}

proof fn lemma_bview_seq_push(s: Seq<BValue>, v: BValue)
    ensures
        bview_seq(s.push(v)) == bview_seq(s).push(bview(v)),
{
    assert(bview_seq(s.push(v)) =~= bview_seq(s).push(bview(v)));
}

proof fn lemma_bview_entries_push(s: Seq<(Vec<u8>, BValue)>, k: Vec<u8>, v: BValue)
    ensures
        bview_entries(s.push((k, v))) == bview_entries(s).push((k@, bview(v))),
{
    assert(bview_entries(s.push((k, v))) =~= bview_entries(s).push((k@, bview(v))));
}

/// A looked-up dictionary value that is an integer within `u64`.
pub open spec fn lookup_is_u64(n: Option<BNode>) -> bool {
    n matches Some(BNode::Int(i)) && 0 <= i <= u64::MAX
}

/// A looked-up dictionary value that is a byte string of valid UTF-8 text.
pub open spec fn lookup_is_text(n: Option<BNode>) -> bool {
    n matches Some(BNode::Bytes(b)) && vstd::utf8::valid_utf8(b)
}

/// Errors of the decoding layers, per the error taxonomy of the crate:
/// structurally bad bencode, and schema violations on top of a parsed tree.
#[derive(Debug)]
pub enum DecodeError {
    /// Structurally invalid bencode, with the offset of the first violation.
    MalformedEncoding(usize),
    /// A required key is absent from a schema dictionary.
    MissingField(String),
    /// An unknown key appears in a closed-schema dictionary.
    UnexpectedField(String),
    /// A known key holds a value of the wrong shape.
    InvalidField(String),
}

/// Scan the maximal digit run from `pos` and return its decimal value.
/// Errors when the run is empty or longer than `max_digits()`.
fn parse_digits(s: &[u8], pos: usize) -> (r: Result<(u64, usize), ()>)
    requires
        pos <= s@.len(),
    ensures
        (match r {
            Ok((val, end)) => {
                &&& sp_digits(s@, pos as int) == Ok::<(int, int), ()>((val as int, end as int))
                &&& digits_end(s@, pos as int) == end as int
                &&& pos < end <= s@.len()
            },
            Err(()) => sp_digits(s@, pos as int) == Err::<(int, int), ()>(()),
        }),
{
    if pos >= s.len() {
        return Err(());
    }
    if !(48 <= s[pos] && s[pos] <= 57) {
        return Err(());
    }
    let mut i: usize = pos;
    let mut acc: u64 = 0;
    proof {
        lemma_pow10_19();
    }
    while i < s.len() && 48 <= s[i] && s[i] <= 57
        invariant
            pos <= i <= s@.len(),
            i - pos <= max_digits(),
            forall|j: int| pos <= j < i ==> is_digit(#[trigger] s@[j]),
            acc as int == dec_val(s@, pos as int, i as int),
            (acc as int) < pow10((i - pos) as nat),
            pow10(19) == 10_000_000_000_000_000_000,
            pos < s@.len() && is_digit(s@[pos as int]),
        decreases s@.len() - i,
    {
        if i - pos == 19 {
            proof {
                lemma_digits_end_at_least(s@, pos as int, i as int + 1);
            }
            return Err(());
        }
        proof {
            reveal_with_fuel(pow10, 20);
            assert(pow10(((i - pos) as nat)) <= pow10(18)) by {
                lemma_pow10_le(((i - pos) as nat), 18);
            }
        }
        let d = s[i] - 48;
        acc = acc * 10 + (d as u64);
        i = i + 1;
    }
    proof {
        lemma_digits_end_is(s@, pos as int, i as int);
    }
    if s[pos] == 48 && i - pos > 1 {
        return Err(());
    }
    Ok((acc, i))
}

proof fn lemma_pow10_le(a: nat, b: nat)
    requires
        a <= b,
    ensures
        pow10(a) <= pow10(b),
        pow10(a) >= 1,
    decreases b,
{
    if a == b {
        lemma_pow10_pos(a);
    } else {
        lemma_pow10_le(a, (b - 1) as nat);
    }
}

proof fn lemma_pow10_pos(a: nat)
    ensures
        pow10(a) >= 1,
    decreases a,
{
    if a > 0 {
        lemma_pow10_pos((a - 1) as nat);
    }
}

/// Parse a byte string `<digits>:<bytes>` at `pos`.
pub fn parse_bstr(s: &[u8], pos: usize) -> (r: Result<(Vec<u8>, usize), usize>)
    requires
        pos <= s@.len(),
    ensures
        (match r {
            Ok((b, end)) => sp_bstr(s@, pos as int) == Ok::<(Seq<u8>, int), int>(
                (b@, end as int),
            ) && pos < end <= s@.len(),
            Err(off) => sp_bstr(s@, pos as int) == Err::<(Seq<u8>, int), int>(off as int),
        }),
{
    match parse_digits(s, pos) {
        Err(()) => Err(pos),
        Ok((n, dend)) => {
            if dend >= s.len() || s[dend] != 58 {
                return Err(dend);
            }
            let rem = s.len() - dend - 1;
            if n > rem as u64 {
                return Err(dend);
            }
            let start = dend + 1;
            let end = start + (n as usize);
            let b = vstd::slice::slice_to_vec(vstd::slice::slice_subrange(s, start, end));
            Ok((b, end))
        },
    }
}

/// Parse an integer `i<digits>e` at `pos`, which must hold the byte `i`.
fn parse_int(s: &[u8], pos: usize) -> (r: Result<(i64, usize), usize>)
    requires
        pos < s@.len(),
        s@[pos as int] == 105,
    ensures
        (match r {
            Ok((v, end)) => sp_int(s@, pos as int) == Ok::<(BNode, int), int>(
                (BNode::Int(v as int), end as int),
            ) && pos < end <= s@.len(),
            Err(off) => sp_int(s@, pos as int) == Err::<(BNode, int), int>(off as int),
        }),
{
    let slen = s.len();
    let neg = pos + 1 < slen && s[pos + 1] == 45;
    let dstart = if neg {
        pos + 2
    } else {
        pos + 1
    };
    match parse_digits(s, dstart) {
        Err(()) => Err(dstart),
        Ok((mag, dend)) => {
            if neg && mag == 0 {
                return Err(dstart);
            }
            if neg {
                if mag > 0x8000_0000_0000_0000u64 {
                    return Err(dstart);
                }
            } else {
                if mag > 0x7fff_ffff_ffff_ffffu64 {
                    return Err(dstart);
                }
            }
            if dend >= s.len() || s[dend] != 101 {
                return Err(dend);
            }
            let v: i64 = if neg {
                if mag == 0x8000_0000_0000_0000u64 {
                    i64::MIN
                } else {
                    -(mag as i64)
                }
            } else {
                mag as i64
            };
            Ok((v, dend + 1))
        },
    }
}

/// Parse one bencode value at `pos`; returns the value and the position just
/// past it. The result is exactly what the grammar `sp_value` says.
pub fn parse_value(s: &[u8], pos: usize) -> (r: Result<(BValue, usize), usize>)
    requires
        pos <= s@.len(),
    ensures
        (match r {
            Ok((v, end)) => sp_value(s@, pos as int) == Ok::<(BNode, int), int>(
                (bview(v), end as int),
            ) && pos < end <= s@.len(),
            Err(off) => sp_value(s@, pos as int) == Err::<(BNode, int), int>(off as int),
        }),
    decreases s@.len() - pos,
{
    if pos >= s.len() {
        return Err(pos);
    }
    let c = s[pos];
    if c == 105 {
        match parse_int(s, pos) {
            Ok((v, end)) => Ok((BValue::Int(v), end)),
            Err(off) => Err(off),
        }
    } else if 48 <= c && c <= 57 {
        match parse_bstr(s, pos) {
            Ok((b, end)) => Ok((BValue::Bytes(b), end)),
            Err(off) => Err(off),
        }
    } else if c == 108 {
        let mut items: Vec<BValue> = Vec::new();
        let mut cur = pos + 1;
        proof {
            assert(bview_seq(items@) =~= Seq::<BNode>::empty());
        }
        loop
            invariant
                pos < cur <= s@.len(),
                pos < s@.len(),
                (forall|rest: Seq<BNode>, end: int|
                    sp_list(s@, cur as int) == Ok::<(Seq<BNode>, int), int>((rest, end))
                        ==> sp_value(s@, pos as int) == Ok::<(BNode, int), int>(
                        (BNode::List(bview_seq(items@) + rest), end),
                    )),
                (forall|off: int|
                    sp_list(s@, cur as int) == Err::<(Seq<BNode>, int), int>(off) ==> sp_value(
                        s@,
                        pos as int,
                    ) == Err::<(BNode, int), int>(off)),
            decreases s@.len() - cur,
        {
            if cur >= s.len() {
                return Err(cur);
            }
            if s[cur] == 101 {
                proof {
                    assert(bview_seq(items@) + Seq::<BNode>::empty() =~= bview_seq(items@));
                }
                return Ok((BValue::List(items), cur + 1));
            }
            match parse_value(s, cur) {
                Err(off) => {
                    return Err(off);
                },
                Ok((v, end)) => {
                    proof {
                        let rest0 = sp_list(s@, end as int);
                        lemma_bview_seq_push(items@, v);
                        if !(rest0 is Err) {
                            let rest = rest0->Ok_0.0;
                            assert(bview_seq(items@) + (seq![bview(v)] + rest) =~= bview_seq(
                                items@.push(v),
                            ) + rest);
                        }
                    }
                    items.push(v);
                    cur = end;
                },
            }
        }
    } else if c == 100 {
        let mut entries: Vec<(Vec<u8>, BValue)> = Vec::new();
        let mut cur = pos + 1;
        proof {
            assert(bview_entries(entries@) =~= Seq::<(Seq<u8>, BNode)>::empty());
        }
        loop
            invariant
                pos < cur <= s@.len(),
                pos < s@.len(),
                (forall|rest: Seq<(Seq<u8>, BNode)>, end: int|
                    sp_dict(s@, cur as int) == Ok::<(Seq<(Seq<u8>, BNode)>, int), int>((rest, end))
                        ==> sp_value(s@, pos as int) == Ok::<(BNode, int), int>(
                        (BNode::Dict(bview_entries(entries@) + rest), end),
                    )),
                (forall|off: int|
                    sp_dict(s@, cur as int) == Err::<(Seq<(Seq<u8>, BNode)>, int), int>(off)
                        ==> sp_value(s@, pos as int) == Err::<(BNode, int), int>(off)),
            decreases s@.len() - cur,
        {
            if cur >= s.len() {
                return Err(cur);
            }
            if s[cur] == 101 {
                proof {
                    assert(bview_entries(entries@) + Seq::<(Seq<u8>, BNode)>::empty()
                        =~= bview_entries(entries@));
                }
                return Ok((BValue::Dict(entries), cur + 1));
            }
            match parse_bstr(s, cur) {
                Err(off) => {
                    return Err(off);
                },
                Ok((key, kend)) => {
                    match parse_value(s, kend) {
                        Err(off) => {
                            return Err(off);
                        },
                        Ok((v, end)) => {
                            proof {
                                let rest0 = sp_dict(s@, end as int);
                                lemma_bview_entries_push(entries@, key, v);
                                if !(rest0 is Err) {
                                    let rest = rest0->Ok_0.0;
                                    assert(bview_entries(entries@) + (seq![(key@, bview(v))]
                                        + rest) =~= bview_entries(entries@.push((key, v))) + rest);
                                }
                            }
                            entries.push((key, v));
                            cur = end;
                        },
                    }
                },
            }
        }
    } else {
        Err(pos)
    }
}

/// Decode a whole bencode document: one value spanning the entire input.
/// Success and failure, the resulting tree and the reported offset are all
/// exactly what the specification grammar `spec_decode` says.
pub fn decode(bytes: &[u8]) -> (r: Result<BValue, DecodeError>)
    ensures
        (match r {
            Ok(v) => spec_decode(bytes@) == Ok::<BNode, int>(bview(v)) && bytes@ == spec_encode(
                bview(v),
            ),
            Err(e) => e matches DecodeError::MalformedEncoding(off) && spec_decode(bytes@)
                == Err::<BNode, int>(off as int),
        }),
{
    proof {
        lemma_decode_sound(bytes@);
    }
    match parse_value(bytes, 0) {
        Err(off) => Err(DecodeError::MalformedEncoding(off)),
        Ok((v, end)) => {
            if end == bytes.len() {
                Ok(v)
            } else {
                Err(DecodeError::MalformedEncoding(end))
            }
        },
    }
}

/// Decimal digits of `n` (for `n >= 0`), most significant first.
pub open spec fn dec_digits(n: int) -> Seq<u8>
    decreases n,
{
    if n < 10 {
        seq![(48 + if n >= 0 { n } else { 0 }) as u8]
    } else {
        dec_digits(n / 10).push((48 + n % 10) as u8)
    }
}

/// The encoding of a byte string: `<decimal length>:<bytes>`.
pub open spec fn enc_bstr(b: Seq<u8>) -> Seq<u8> {
    dec_digits(b.len() as int) + seq![58u8] + b
}

/// The canonical encoding of a value tree: the inverse of the grammar.
pub open spec fn spec_encode(t: BNode) -> Seq<u8>
    decreases t, 1int,
{
    match t {
        BNode::Bytes(b) => enc_bstr(b),
        BNode::Int(i) => if i < 0 {
            seq![105u8] + seq![45u8] + dec_digits(-i) + seq![101u8]
        } else {
            seq![105u8] + dec_digits(i) + seq![101u8]
        },
        BNode::List(items) => seq![108u8] + spec_encode_seq(items) + seq![101u8],
        BNode::Dict(es) => seq![100u8] + spec_encode_entries(es) + seq![101u8],
    }
}

pub open spec fn spec_encode_seq(items: Seq<BNode>) -> Seq<u8>
    decreases items, 0int,
{
    if items.len() == 0 {
        Seq::empty()
    } else {
        spec_encode(items[0]) + spec_encode_seq(items.drop_first())
    }
}

pub open spec fn spec_encode_entries(es: Seq<(Seq<u8>, BNode)>) -> Seq<u8>
    decreases es, 0int,
{
    if es.len() == 0 {
        Seq::empty()
    } else {
        enc_bstr(es[0].0) + spec_encode(es[0].1) + spec_encode_entries(es.drop_first())
    }
}

proof fn lemma_dec_val_lower(s: Seq<u8>, pos: int, end: int)
    requires
        pos < end,
        forall|j: int| pos <= j < end ==> is_digit(#[trigger] s[j]),
        s[pos] != 48,
    ensures
        dec_val(s, pos, end) >= pow10((end - pos - 1) as nat),
    decreases end - pos,
{
    if end - pos == 1 {
        assert(dec_val(s, pos, pos) == 0);
        assert(pow10(0) == 1);
    } else {
        lemma_dec_val_lower(s, pos, end - 1);
        lemma_dec_val_bound(s, pos, end);
        assert(pow10((end - pos - 1) as nat) == 10 * pow10((end - pos - 2) as nat));
    }
}

/// A canonical digit run prints back to itself.
proof fn lemma_dec_digits_inv(s: Seq<u8>, pos: int, end: int)
    requires
        0 <= pos < end <= s.len(),
        forall|j: int| pos <= j < end ==> is_digit(#[trigger] s[j]),
        end - pos == 1 || s[pos] != 48,
    ensures
        dec_digits(dec_val(s, pos, end)) == s.subrange(pos, end),
    decreases end - pos,
{
    let v = dec_val(s, pos, end);
    if end - pos == 1 {
        assert(dec_val(s, pos, pos) == 0);
        assert(v == s[pos] - 48);
        assert(dec_digits(v) =~= s.subrange(pos, end));
    } else {
        let vp = dec_val(s, pos, end - 1);
        let d = s[end - 1] - 48;
        lemma_dec_val_lower(s, pos, end - 1);
        lemma_pow10_le(0, (end - pos - 2) as nat);
        assert(vp >= 1);
        assert(v == vp * 10 + d);
        assert(v / 10 == vp && v % 10 == d) by (nonlinear_arith)
            requires
                v == vp * 10 + d,
                0 <= d < 10,
                vp >= 0,
        ;
        lemma_dec_digits_inv(s, pos, end - 1);
        assert(dec_digits(v) == dec_digits(vp).push((48 + d) as u8));
        assert(dec_digits(v) =~= s.subrange(pos, end));
    }
}

/// Soundness of the parser against the encoder: a parsed value spans exactly
/// the bytes that its tree encodes to.
pub proof fn lemma_sp_sound(s: Seq<u8>, pos: int)
    ensures
        sp_value(s, pos) matches Ok((t, p)) ==> s.subrange(pos, p) == spec_encode(t),
    decreases s.len() - pos, 2int,
{
    lemma_sp_range(s, pos);
    if 0 <= pos < s.len() && !(sp_value(s, pos) is Err) {
        let t = sp_value(s, pos)->Ok_0.0;
        let p = sp_value(s, pos)->Ok_0.1;
        if s[pos] == 105 {
            // integer
            let neg = pos + 1 < s.len() && s[pos + 1] == 45;
            let dstart = if neg {
                pos + 2
            } else {
                pos + 1
            };
            let dend = digits_end(s, dstart);
            lemma_digits_end(s, dstart);
            let mag = dec_val(s, dstart, dend);
            lemma_dec_val_bound(s, dstart, dend);
            lemma_dec_digits_inv(s, dstart, dend);
            if neg {
                assert(s.subrange(pos, p) =~= seq![105u8] + seq![45u8] + dec_digits(mag)
                    + seq![101u8]);
            } else {
                assert(s.subrange(pos, p) =~= seq![105u8] + dec_digits(mag) + seq![101u8]);
            }
            assert(s.subrange(pos, p) == spec_encode(t));
        } else if is_digit(s[pos]) {
            // byte string
            let dend = digits_end(s, pos);
            lemma_digits_end(s, pos);
            lemma_dec_val_bound(s, pos, dend);
            let n = dec_val(s, pos, dend);
            lemma_dec_digits_inv(s, pos, dend);
            let b = s.subrange(dend + 1, dend + 1 + n);
            assert(b.len() == n);
            assert(dec_digits(b.len() as int) == s.subrange(pos, dend));
            assert(s.subrange(pos, p) =~= dec_digits(b.len() as int) + seq![58u8] + b);
            assert(s.subrange(pos, p) == spec_encode(t));
        } else if s[pos] == 108 {
            lemma_sp_list_sound(s, pos + 1);
            let items = sp_list(s, pos + 1)->Ok_0.0;
            lemma_sp_range(s, pos + 1);
            assert(s.subrange(pos, p) =~= seq![108u8] + s.subrange(pos + 1, p));
            assert(s.subrange(pos, p) =~= seq![108u8] + spec_encode_seq(items) + seq![101u8]);
            assert(s.subrange(pos, p) == spec_encode(t));
        } else if s[pos] == 100 {
            lemma_sp_dict_sound(s, pos + 1);
            let es = sp_dict(s, pos + 1)->Ok_0.0;
            lemma_sp_range(s, pos + 1);
            assert(s.subrange(pos, p) =~= seq![100u8] + s.subrange(pos + 1, p));
            assert(s.subrange(pos, p) =~= seq![100u8] + spec_encode_entries(es) + seq![101u8]);
            assert(s.subrange(pos, p) == spec_encode(t));
        }
    }
}

/// A parsed run of list items spans its items' encodings plus the closing `e`.
proof fn lemma_sp_list_sound(s: Seq<u8>, pos: int)
    ensures
        sp_list(s, pos) matches Ok((ts, p)) ==> s.subrange(pos, p) == spec_encode_seq(ts)
            + seq![101u8],
    decreases s.len() - pos, 3int,
{
    lemma_sp_range(s, pos);
    if 0 <= pos < s.len() && !(sp_list(s, pos) is Err) {
        let ts = sp_list(s, pos)->Ok_0.0;
        let p = sp_list(s, pos)->Ok_0.1;
        if s[pos] == 101 {
            assert(s.subrange(pos, p) =~= spec_encode_seq(ts) + seq![101u8]);
        } else {
            let t = sp_value(s, pos)->Ok_0.0;
            let p1 = sp_value(s, pos)->Ok_0.1;
            lemma_sp_sound(s, pos);
            lemma_sp_range(s, p1);
            lemma_sp_list_sound(s, p1);
            let rest = sp_list(s, p1)->Ok_0.0;
            assert(ts.drop_first() =~= rest);
            assert(ts[0] == t);
            assert(s.subrange(pos, p) =~= s.subrange(pos, p1) + s.subrange(p1, p));
            assert(s.subrange(pos, p) =~= spec_encode(t) + (spec_encode_seq(rest) + seq![101u8]));
            assert(spec_encode_seq(ts) == spec_encode(t) + spec_encode_seq(rest));
            assert(s.subrange(pos, p) =~= spec_encode_seq(ts) + seq![101u8]);
        }
    }
}

/// A parsed run of dictionary entries spans its entries' encodings plus the
/// closing `e`.
proof fn lemma_sp_dict_sound(s: Seq<u8>, pos: int)
    ensures
        sp_dict(s, pos) matches Ok((es, p)) ==> s.subrange(pos, p) == spec_encode_entries(es)
            + seq![101u8],
    decreases s.len() - pos, 3int,
{
    lemma_sp_range(s, pos);
    if 0 <= pos < s.len() && !(sp_dict(s, pos) is Err) {
        let es = sp_dict(s, pos)->Ok_0.0;
        let p = sp_dict(s, pos)->Ok_0.1;
        if s[pos] == 101 {
            assert(s.subrange(pos, p) =~= spec_encode_entries(es) + seq![101u8]);
        } else {
            let key = sp_bstr(s, pos)->Ok_0.0;
            let kp = sp_bstr(s, pos)->Ok_0.1;
            // the key span is its byte-string encoding
            let dend = digits_end(s, pos);
            lemma_digits_end(s, pos);
            lemma_dec_val_bound(s, pos, dend);
            lemma_dec_digits_inv(s, pos, dend);
            assert(key.len() == dec_val(s, pos, dend));
            assert(s.subrange(pos, kp) =~= dec_digits(key.len() as int) + seq![58u8] + key);
            let t = sp_value(s, kp)->Ok_0.0;
            let p1 = sp_value(s, kp)->Ok_0.1;
            lemma_sp_range(s, kp);
            lemma_sp_sound(s, kp);
            lemma_sp_range(s, p1);
            lemma_sp_dict_sound(s, p1);
            let rest = sp_dict(s, p1)->Ok_0.0;
            assert(es.drop_first() =~= rest);
            assert(es[0] == (key, t));
            assert(s.subrange(pos, p) =~= s.subrange(pos, kp) + s.subrange(kp, p1) + s.subrange(
                p1,
                p,
            ));
            assert(spec_encode_entries(es) == enc_bstr(key) + spec_encode(t) + spec_encode_entries(
                rest,
            ));
            assert(s.subrange(pos, p) =~= spec_encode_entries(es) + seq![101u8]);
        }
    }
}

/// A decoded document re-encodes to exactly the input bytes.
pub proof fn lemma_decode_sound(s: Seq<u8>)
    ensures
        spec_decode(s) matches Ok(t) ==> s == spec_encode(t),
{
    lemma_sp_sound(s, 0);
    if spec_decode(s) matches Ok(t) {
        assert(s.subrange(0, s.len() as int) =~= s);
    }
}

/// First binding of `key` among dictionary entries, if any.
pub open spec fn dict_lookup(es: Seq<(Seq<u8>, BNode)>, key: Seq<u8>) -> Option<BNode>
    decreases es.len(),
{
    if es.len() == 0 {
        None
    } else if es[0].0 == key {
        Some(es[0].1)
    } else {
        dict_lookup(es.drop_first(), key)
    }
}

/// Byte-exact comparison of two byte slices.
pub fn bytes_eq(a: &[u8], b: &[u8]) -> (r: bool)
    ensures
        r == (a@ == b@),
{
    if a.len() != b.len() {
        proof {
            assert(a@ != b@);
        }
        return false;
    }
    let mut i: usize = 0;
    while i < a.len()
        invariant
            0 <= i <= a@.len(),
            a@.len() == b@.len(),
            forall|j: int| 0 <= j < i ==> a@[j] == b@[j],
        decreases a@.len() - i,
    {
        if a[i] != b[i] {
            proof {
                assert(a@ != b@);
            }
            return false;
        }
        i = i + 1;
    }
    proof {
        assert(a@ =~= b@);
    }
    true
}

/// Look `key` up in parsed dictionary entries: the first binding wins,
/// matching `dict_lookup` over the entries' view.
pub fn dict_get<'a>(entries: &'a Vec<(Vec<u8>, BValue)>, key: &[u8]) -> (r: Option<&'a BValue>)
    ensures
        (match r {
            Some(v) => dict_lookup(bview_entries(entries@), key@) == Some(bview(*v)),
            None => dict_lookup(bview_entries(entries@), key@) is None,
        }),
{
    let mut i: usize = 0;
    proof {
        assert(bview_entries(entries@).skip(0) =~= bview_entries(entries@));
    }
    while i < entries.len()
        invariant
            0 <= i <= entries@.len(),
            dict_lookup(bview_entries(entries@), key@) == dict_lookup(
                bview_entries(entries@).skip(i as int),
                key@,
            ),
        decreases entries@.len() - i,
    {
        if bytes_eq(entries[i].0.as_slice(), key) {
            proof {
                let rest = bview_entries(entries@).skip(i as int);
                assert(rest[0] == (entries@[i as int].0@, bview(entries@[i as int].1)));
            }
            return Some(&entries[i].1);
        }
        proof {
            let rest = bview_entries(entries@).skip(i as int);
            assert(rest[0] == (entries@[i as int].0@, bview(entries@[i as int].1)));
            assert(rest.drop_first() =~= bview_entries(entries@).skip(i as int + 1));
        }
        i = i + 1;
    }
    proof {
        assert(bview_entries(entries@).skip(i as int).len() == 0);
    }
    None
}

/// Values the canonical encoder can represent: integers within `i64` and
/// byte-string lengths whose decimal form the parser accepts.
pub open spec fn node_wf(t: BNode) -> bool
    decreases t, 1int,
{
    match t {
        BNode::Bytes(b) => b.len() < pow10(19),
        BNode::Int(i) => -0x8000_0000_0000_0000 <= i <= 0x7fff_ffff_ffff_ffff,
        BNode::List(items) => node_wf_seq(items),
        BNode::Dict(es) => node_wf_entries(es),
    }
}

pub open spec fn node_wf_seq(items: Seq<BNode>) -> bool
    decreases items, 0int,
{
    forall|i: int| 0 <= i < items.len() ==> node_wf(#[trigger] items[i])
}

pub open spec fn node_wf_entries(es: Seq<(Seq<u8>, BNode)>) -> bool
    decreases es, 0int,
{
    forall|i: int|
        0 <= i < es.len() ==> (#[trigger] es[i]).0.len() < pow10(19) && node_wf(es[i].1)
}

proof fn lemma_dec_digits_props(n: int)
    requires
        0 <= n,
    ensures
        dec_digits(n).len() >= 1,
        forall|j: int| 0 <= j < dec_digits(n).len() ==> is_digit(#[trigger] dec_digits(n)[j]),
        n > 0 ==> dec_digits(n)[0] != 48,
        n == 0 ==> dec_digits(n) == seq![48u8],
    decreases n,
{
    if n < 10 {
    } else {
        lemma_dec_digits_props(n / 10);
        assert(dec_digits(n) == dec_digits(n / 10).push((48 + n % 10) as u8));
    }
}

proof fn lemma_dec_digits_len(n: int, k: int)
    requires
        1 <= k,
        0 <= n < pow10(k as nat),
    ensures
        dec_digits(n).len() <= k,
    decreases k,
{
    if n < 10 {
    } else {
        assert(pow10(k as nat) == 10 * pow10((k - 1) as nat));
        assert(n / 10 < pow10((k - 1) as nat));
        assert(k >= 2) by {
            lemma_pow10_le(1, (k - 1) as nat);
        }
        lemma_dec_digits_len(n / 10, k - 1);
    }
}

/// The decimal value of a printed digit run is the number printed.
proof fn lemma_dec_val_of_digits(s: Seq<u8>, pos: int, n: int)
    requires
        0 <= n,
        0 <= pos,
        pos + dec_digits(n).len() <= s.len(),
        s.subrange(pos, pos + dec_digits(n).len()) == dec_digits(n),
    ensures
        dec_val(s, pos, pos + dec_digits(n).len()) == n,
    decreases n,
{
    let len = dec_digits(n).len() as int;
    if n < 10 {
        assert(s[pos] == dec_digits(n)[0]);
        assert(dec_val(s, pos, pos) == 0);
    } else {
        lemma_dec_digits_props(n / 10);
        assert(dec_digits(n) == dec_digits(n / 10).push((48 + n % 10) as u8));
        assert(s.subrange(pos, pos + len - 1) =~= dec_digits(n / 10));
        lemma_dec_val_of_digits(s, pos, n / 10);
        assert(s[pos + len - 1] == dec_digits(n)[len - 1]);
    }
}

/// An encoding never starts with the terminator byte `e`.
proof fn lemma_enc_first(t: BNode)
    ensures
        spec_encode(t).len() >= 1,
        spec_encode(t)[0] != 101,
        spec_encode(t)[0] == 105 <==> t is Int,
        is_digit(spec_encode(t)[0]) <==> t is Bytes,
        spec_encode(t)[0] == 108 <==> t is List,
        spec_encode(t)[0] == 100 <==> t is Dict,
{
    match t {
        BNode::Bytes(b) => {
            lemma_dec_digits_props(b.len() as int);
            assert(spec_encode(t)[0] == dec_digits(b.len() as int)[0]);
        },
        BNode::Int(i) => {
            assert(spec_encode(t)[0] == 105);
        },
        BNode::List(items) => {
            assert(spec_encode(t)[0] == 108);
        },
        BNode::Dict(es) => {
            assert(spec_encode(t)[0] == 100);
        },
    }
}

/// A printed byte string parses back to itself.
proof fn lemma_sp_bstr_complete(s: Seq<u8>, pos: int, b: Seq<u8>)
    requires
        0 <= pos,
        b.len() < pow10(19),
        pos + enc_bstr(b).len() <= s.len(),
        s.subrange(pos, pos + enc_bstr(b).len()) == enc_bstr(b),
    ensures
        sp_bstr(s, pos) == Ok::<(Seq<u8>, int), int>((b, pos + enc_bstr(b).len())),
{
    let n = b.len() as int;
    let dd = dec_digits(n);
    let e = enc_bstr(b);
    lemma_dec_digits_props(n);
    lemma_dec_digits_len(n, 19);
    assert(e.len() == dd.len() + 1 + n);
    assert forall|j: int| pos <= j < pos + dd.len() implies is_digit(#[trigger] s[j]) by {
        assert(s[j] == e[j - pos]);
        assert(e[j - pos] == dd[j - pos]);
    }
    assert(s[pos + dd.len()] == e[dd.len() as int]);
    assert(e[dd.len() as int] == 58);
    lemma_digits_end_is(s, pos, pos + dd.len());
    assert(s.subrange(pos, pos + dd.len()) =~= dd);
    lemma_dec_val_of_digits(s, pos, n);
    assert(s[pos] == dd[0]);
    assert(n == 0 ==> dd.len() == 1);
    assert(sp_digits(s, pos) == Ok::<(int, int), ()>((n, pos + dd.len())));
    assert(s.subrange(pos + dd.len() + 1, pos + dd.len() + 1 + n) =~= b) by {
        assert forall|j: int| 0 <= j < n implies s[pos + dd.len() + 1 + j] == b[j] by {
            assert(s[pos + dd.len() + 1 + j] == e[dd.len() + 1 + j]);
            assert(e[dd.len() + 1 + j] == b[j]);
        }
    }
}

/// A printed value parses back to itself: together with the parser's
/// soundness this makes decoding and encoding exact inverses.
pub proof fn lemma_sp_complete(s: Seq<u8>, pos: int, t: BNode)
    requires
        node_wf(t),
        0 <= pos,
        pos + spec_encode(t).len() <= s.len(),
        s.subrange(pos, pos + spec_encode(t).len()) == spec_encode(t),
    ensures
        sp_value(s, pos) == Ok::<(BNode, int), int>((t, pos + spec_encode(t).len())),
    decreases t, 1int,
{
    let e = spec_encode(t);
    lemma_enc_first(t);
    assert(s[pos] == e[0]);
    match t {
        BNode::Bytes(b) => {
            lemma_sp_bstr_complete(s, pos, b);
        },
        BNode::Int(i) => {
            let neg = i < 0;
            let mag = if i < 0 {
                -i
            } else {
                i
            };
            let dd = dec_digits(mag);
            lemma_dec_digits_props(mag);
            lemma_pow10_19();
            lemma_dec_digits_len(mag, 19);
            let dstart = if neg {
                pos + 2
            } else {
                pos + 1
            };
            if neg {
                assert(s[pos + 1] == e[1]);
                assert(e[1] == 45);
            } else {
                assert(s[pos + 1] == e[1]);
                assert(e[1] == dd[0]);
                assert(s[pos + 1] != 45);
            }
            assert forall|j: int| dstart <= j < dstart + dd.len() implies is_digit(
                #[trigger] s[j],
            ) by {
                assert(s[j] == e[j - pos]);
                assert(e[j - pos] == dd[j - dstart]);
            }
            assert(s[dstart + dd.len()] == e[dstart - pos + dd.len()]);
            assert(e[dstart - pos + dd.len()] == 101);
            lemma_digits_end_is(s, dstart, dstart + dd.len());
            assert forall|j: int| 0 <= j < dd.len() implies s[dstart + j] == dd[j] by {
                assert(s[dstart + j] == e[dstart - pos + j]);
            }
            assert(s.subrange(dstart, dstart + dd.len()) =~= dd);
            lemma_dec_val_of_digits(s, dstart, mag);
            assert(s[dstart] == dd[0]);
            assert(mag == 0 ==> dd.len() == 1);
            assert(sp_digits(s, dstart) == Ok::<(int, int), ()>((mag, dstart + dd.len())));
            assert(sp_int(s, pos) == Ok::<(BNode, int), int>((t, pos + e.len())));
        },
        BNode::List(items) => {
            assert(s.subrange(pos + 1, pos + e.len()) =~= spec_encode_seq(items) + seq![101u8])
                by {
                assert forall|j: int| 0 <= j < e.len() - 1 implies s[pos + 1 + j] == (
                spec_encode_seq(items) + seq![101u8])[j] by {
                    assert(s[pos + 1 + j] == e[1 + j]);
                }
            }
            lemma_sp_list_complete(s, pos + 1, items);
        },
        BNode::Dict(es) => {
            assert(s.subrange(pos + 1, pos + e.len()) =~= spec_encode_entries(es) + seq![101u8])
                by {
                assert forall|j: int| 0 <= j < e.len() - 1 implies s[pos + 1 + j] == (
                spec_encode_entries(es) + seq![101u8])[j] by {
                    assert(s[pos + 1 + j] == e[1 + j]);
                }
            }
            lemma_sp_dict_complete(s, pos + 1, es);
        },
    }
}

proof fn lemma_sp_list_complete(s: Seq<u8>, pos: int, items: Seq<BNode>)
    requires
        node_wf_seq(items),
        0 <= pos,
        pos + spec_encode_seq(items).len() + 1 <= s.len(),
        s.subrange(pos, pos + spec_encode_seq(items).len() + 1) == spec_encode_seq(items) + seq![
            101u8,
        ],
    ensures
        sp_list(s, pos) == Ok::<(Seq<BNode>, int), int>(
            (items, pos + spec_encode_seq(items).len() + 1),
        ),
    decreases items, 2int,
{
    let e = spec_encode_seq(items) + seq![101u8];
    if items.len() == 0 {
        assert(s[pos] == e[0]);
        assert(e[0] == 101);
        assert(items =~= Seq::<BNode>::empty());
    } else {
        let h = items[0];
        let he = spec_encode(h);
        let rest = items.drop_first();
        assert(spec_encode_seq(items) == he + spec_encode_seq(rest));
        assert(s.subrange(pos, pos + he.len()) =~= he) by {
            assert forall|j: int| 0 <= j < he.len() implies s[pos + j] == he[j] by {
                assert(s[pos + j] == e[j]);
            }
        }
        lemma_enc_first(h);
        assert(s[pos] == he[0]);
        assert(s[pos] != 101);
        assert(node_wf(h));
        lemma_sp_complete(s, pos, h);
        let p1 = pos + he.len();
        assert(s.subrange(p1, p1 + spec_encode_seq(rest).len() + 1) =~= spec_encode_seq(rest)
            + seq![101u8]) by {
            assert forall|j: int| 0 <= j < spec_encode_seq(rest).len() + 1 implies s[p1 + j] == (
            spec_encode_seq(rest) + seq![101u8])[j] by {
                assert(s[p1 + j] == e[he.len() + j]);
            }
        }
        assert(node_wf_seq(rest)) by {
            assert(forall|i: int| 0 <= i < rest.len() ==> #[trigger] rest[i] == items[i + 1]);
        }
        lemma_sp_list_complete(s, p1, rest);
        assert(seq![h] + rest =~= items);
    }
}

proof fn lemma_sp_dict_complete(s: Seq<u8>, pos: int, es: Seq<(Seq<u8>, BNode)>)
    requires
        node_wf_entries(es),
        0 <= pos,
        pos + spec_encode_entries(es).len() + 1 <= s.len(),
        s.subrange(pos, pos + spec_encode_entries(es).len() + 1) == spec_encode_entries(es) + seq![
            101u8,
        ],
    ensures
        sp_dict(s, pos) == Ok::<(Seq<(Seq<u8>, BNode)>, int), int>(
            (es, pos + spec_encode_entries(es).len() + 1),
        ),
    decreases es, 2int,
{
    let e = spec_encode_entries(es) + seq![101u8];
    if es.len() == 0 {
        assert(s[pos] == e[0]);
        assert(e[0] == 101);
        assert(es =~= Seq::<(Seq<u8>, BNode)>::empty());
    } else {
        let key = es[0].0;
        let h = es[0].1;
        let ke = enc_bstr(key);
        let he = spec_encode(h);
        let rest = es.drop_first();
        assert(spec_encode_entries(es) == ke + he + spec_encode_entries(rest));
        assert(s.subrange(pos, pos + ke.len()) =~= ke) by {
            assert forall|j: int| 0 <= j < ke.len() implies s[pos + j] == ke[j] by {
                assert(s[pos + j] == e[j]);
            }
        }
        lemma_dec_digits_props(key.len() as int);
        assert(s[pos] == ke[0]);
        assert(ke[0] == dec_digits(key.len() as int)[0]);
        assert(s[pos] != 101 && is_digit(s[pos]));
        assert(key.len() < pow10(19) && node_wf(h));
        lemma_sp_bstr_complete(s, pos, key);
        let kp = pos + ke.len();
        assert(s.subrange(kp, kp + he.len()) =~= he) by {
            assert forall|j: int| 0 <= j < he.len() implies s[kp + j] == he[j] by {
                assert(s[kp + j] == e[ke.len() + j]);
            }
        }
        lemma_sp_complete(s, kp, h);
        let p1 = kp + he.len();
        assert(s.subrange(p1, p1 + spec_encode_entries(rest).len() + 1) =~= spec_encode_entries(
            rest,
        ) + seq![101u8]) by {
            assert forall|j: int| 0 <= j < spec_encode_entries(rest).len() + 1 implies s[p1 + j]
                == (spec_encode_entries(rest) + seq![101u8])[j] by {
                assert(s[p1 + j] == e[ke.len() + he.len() + j]);
            }
        }
        assert(node_wf_entries(rest)) by {
            assert(forall|i: int| 0 <= i < rest.len() ==> #[trigger] rest[i] == es[i + 1]);
        }
        lemma_sp_dict_complete(s, p1, rest);
        assert(seq![(key, h)] + rest =~= es);
    }
}

/// Round trip: the canonical encoding of any well-formed value tree decodes
/// back to exactly that tree.
pub proof fn lemma_encode_decode_round_trip(t: BNode)
    requires
        node_wf(t),
    ensures
        spec_decode(spec_encode(t)) == Ok::<BNode, int>(t),
{
    let s = spec_encode(t);
    assert(s.subrange(0, s.len() as int) =~= s);
    lemma_sp_complete(s, 0, t);
}

} // verus!
