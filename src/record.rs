//! The byte format of one mutation in a log segment:
//! `{"Set":{"key":K,"value":V}}` or `{"Rm":{"key":K}}`, where `K` and `V` are
//! JSON string literals, and records follow each other with optional
//! whitespace in between.
use vstd::prelude::*;

verus! {

/// A mutation as it is stored in a segment.
#[derive(Debug)]
pub enum Record {
    Put { key: String, value: String },
    Rm { key: String },
}

/// What a record says, as mathematical strings.
pub enum RecordView {
    Put { key: Seq<char>, value: Seq<char> },
    Rm { key: Seq<char> },
}

impl View for Record {
    type V = RecordView;

    open spec fn view(&self) -> RecordView {
        match self {
            Record::Put { key, value } => RecordView::Put { key: key@, value: value@ },
            Record::Rm { key } => RecordView::Rm { key: key@ },
        }
    }
}

/// The bytes that serde_json writes for a string.
pub uninterp spec fn json_str_encoded(s: Seq<char>) -> Seq<u8>;

/// The string that serde_json reads from bytes, if they are one JSON string.
pub uninterp spec fn json_str_decoded(b: Seq<u8>) -> Option<Seq<char>>;

pub open spec fn quote() -> u8 {
    34u8
}

pub open spec fn backslash() -> u8 {
    92u8
}

/// Where the string literal whose body starts at `i` is closed: the first
/// quote that no backslash escapes.
pub open spec fn scan_body(b: Seq<u8>, i: int) -> Option<int>
    decreases b.len() - i,
{
    if i < 0 || i >= b.len() {
        None
    } else if b[i] == quote() {
        Some(i)
    } else if b[i] == backslash() {
        if i + 1 >= b.len() {
            None
        } else {
            scan_body(b, i + 2)
        }
    } else {
        scan_body(b, i + 1)
    }
}

/// `b` is exactly one string literal: a quote, a body, and the quote that
/// closes it as the last byte.
pub open spec fn is_str_literal(b: Seq<u8>) -> bool {
    &&& b.len() >= 2
    &&& b[0] == quote()
    &&& scan_body(b, 1) == Some(b.len() - 1)
}

/// The end (one past the closing quote) of the string literal at `i`.
pub open spec fn literal_end(b: Seq<u8>, i: int) -> Option<int> {
    if 0 <= i < b.len() && b[i] == quote() {
        match scan_body(b, i + 1) {
            Some(q) => Some(q + 1),
            None => None,
        }
    } else {
        None
    }
}

/// The string literal at `i`, decoded, and where it ends.
pub open spec fn parse_str_at(b: Seq<u8>, i: int) -> Option<(Seq<char>, int)> {
    match literal_end(b, i) {
        Some(e) => match json_str_decoded(b.subrange(i, e)) {
            Some(s) => Some((s, e)),
            None => None,
        },
        None => None,
    }
}

/// `{"Set":{"key":`
pub open spec fn set_head() -> Seq<u8> {
    seq![123u8, 34u8, 83u8, 101u8, 116u8, 34u8, 58u8, 123u8, 34u8, 107u8, 101u8, 121u8, 34u8, 58u8]
}

/// `{"Rm":{"key":`
pub open spec fn rm_head() -> Seq<u8> {
    seq![123u8, 34u8, 82u8, 109u8, 34u8, 58u8, 123u8, 34u8, 107u8, 101u8, 121u8, 34u8, 58u8]
}

/// `,"value":`
pub open spec fn value_sep() -> Seq<u8> {
    seq![44u8, 34u8, 118u8, 97u8, 108u8, 117u8, 101u8, 34u8, 58u8]
}

/// `}}`
pub open spec fn record_tail() -> Seq<u8> {
    seq![125u8, 125u8]
}

pub open spec fn has_at(b: Seq<u8>, i: int, p: Seq<u8>) -> bool {
    0 <= i && i + p.len() <= b.len() && b.subrange(i, i + p.len()) == p
}

/// The bytes of a record.
pub open spec fn record_bytes(r: RecordView) -> Seq<u8> {
    match r {
        RecordView::Put { key, value } => set_head() + json_str_encoded(key) + value_sep()
            + json_str_encoded(value) + record_tail(),
        RecordView::Rm { key } => rm_head() + json_str_encoded(key) + record_tail(),
    }
}

/// serde_json writes `s` as one string literal and reads it back as `s`.
pub open spec fn str_encodable(s: Seq<char>) -> bool {
    is_str_literal(json_str_encoded(s)) && json_str_decoded(json_str_encoded(s)) == Some(s)
}

pub open spec fn encodable(r: RecordView) -> bool {
    match r {
        RecordView::Put { key, value } => str_encodable(key) && str_encodable(value),
        RecordView::Rm { key } => str_encodable(key),
    }
}

/// The record that starts at `i`, and where it ends.
pub open spec fn parse_record_at(b: Seq<u8>, i: int) -> Option<(RecordView, int)> {
    if has_at(b, i, set_head()) {
        match parse_str_at(b, i + set_head().len()) {
            Some((k, e1)) => if has_at(b, e1, value_sep()) {
                match parse_str_at(b, e1 + value_sep().len()) {
                    Some((v, e2)) => if has_at(b, e2, record_tail()) {
                        Some((RecordView::Put { key: k, value: v }, e2 + record_tail().len()))
                    } else {
                        None
                    },
                    None => None,
                }
            } else {
                None
            },
            None => None,
        }
    } else if has_at(b, i, rm_head()) {
        match parse_str_at(b, i + rm_head().len()) {
            Some((k, e1)) => if has_at(b, e1, record_tail()) {
                Some((RecordView::Rm { key: k }, e1 + record_tail().len()))
            } else {
                None
            },
            None => None,
        }
    } else {
        None
    }
}

/// Relies on serde_json::to_vec on a `str`: it writes a quoted string literal
/// whose body escapes every quote and backslash of the text (and control
/// characters), and serde_json reads those bytes back as the same text.
#[verifier::external_body]
pub(crate) fn encode_json_str(s: &str) -> (r: Vec<u8>)
    ensures
        r@ == json_str_encoded(s@),
        is_str_literal(r@),
        json_str_decoded(r@) == Some(s@),
{
    match serde_json::to_vec(s) {
        Ok(v) => v,
        Err(_) => Vec::new(),
    }
}

/// Relies on serde_json::from_slice::<String>: the text of the one JSON string
/// that the bytes hold, or an error where they hold none.
#[verifier::external_body]
fn decode_json_str(b: &[u8]) -> (r: Option<String>)
    ensures
        match r {
            Some(s) => json_str_decoded(b@) == Some(s@),
            None => json_str_decoded(b@) is None,
        },
{
    serde_json::from_slice::<String>(b).ok()
}

fn push_all(out: &mut Vec<u8>, lit: &[u8])
    ensures
        final(out)@ == old(out)@ + lit@,
{
    let mut i: usize = 0;
    while i < lit.len()
        invariant
            i <= lit@.len(),
            out@ == old(out)@ + lit@.subrange(0, i as int),
        decreases lit@.len() - i,
    {
        out.push(lit[i]);
        i = i + 1;
        assert(out@ =~= old(out)@ + lit@.subrange(0, i as int));
    }
    assert(lit@.subrange(0, i as int) =~= lit@);
}

fn set_head_lit() -> (r: [u8; 14])
    ensures
        r@ == set_head(),
{
    let r: [u8; 14] = [123u8, 34u8, 83u8, 101u8, 116u8, 34u8, 58u8, 123u8, 34u8, 107u8, 101u8, 121u8, 34u8, 58u8];
    assert(r@ =~= set_head());
    r
}

fn rm_head_lit() -> (r: [u8; 13])
    ensures
        r@ == rm_head(),
{
    let r: [u8; 13] = [123u8, 34u8, 82u8, 109u8, 34u8, 58u8, 123u8, 34u8, 107u8, 101u8, 121u8, 34u8, 58u8];
    assert(r@ =~= rm_head());
    r
}

fn value_sep_lit() -> (r: [u8; 9])
    ensures
        r@ == value_sep(),
{
    let r: [u8; 9] = [44u8, 34u8, 118u8, 97u8, 108u8, 117u8, 101u8, 34u8, 58u8];
    assert(r@ =~= value_sep());
    r
}

fn tail_lit() -> (r: [u8; 2])
    ensures
        r@ == record_tail(),
{
    let r: [u8; 2] = [125u8, 125u8];
    assert(r@ =~= record_tail());
    r
}

/// The bytes that stand for `r` in a segment.
pub fn encode_record(r: &Record) -> (out: Vec<u8>)
    ensures
        out@ == record_bytes(r@),
        encodable(r@),
{
    let mut out: Vec<u8> = Vec::new();
    match r {
        Record::Put { key, value } => {
            push_all(&mut out, &set_head_lit());
            let k = encode_json_str(key.as_str());
            push_all(&mut out, k.as_slice());
            push_all(&mut out, &value_sep_lit());
            let v = encode_json_str(value.as_str());
            push_all(&mut out, v.as_slice());
            push_all(&mut out, &tail_lit());
            assert(out@ =~= record_bytes(r@));
        },
        Record::Rm { key } => {
            push_all(&mut out, &rm_head_lit());
            let k = encode_json_str(key.as_str());
            push_all(&mut out, k.as_slice());
            push_all(&mut out, &tail_lit());
            assert(out@ =~= record_bytes(r@));
        },
    }
    out
}

/// Whether `lit` stands in `b` at `i`.
fn matches_at(b: &[u8], i: usize, lit: &[u8]) -> (r: bool)
    ensures
        r == has_at(b@, i as int, lit@),
{
    let n = b.len();
    if i > n || lit.len() > n - i {
        return false;
    }
    let mut j: usize = 0;
    while j < lit.len()
        invariant
            n == b@.len(),
            i + lit@.len() <= b@.len(),
            j <= lit@.len(),
            forall|t: int| 0 <= t < j ==> b@[i + t] == lit@[t],
        decreases lit@.len() - j,
    {
        if b[i + j] != lit[j] {
            assert(b@.subrange(i as int, i + lit@.len())[j as int] != lit@[j as int]);
            return false;
        }
        j = j + 1;
    }
    assert(b@.subrange(i as int, i + lit@.len()) =~= lit@);
    true
}

/// Where the string literal at `i` ends, one past its closing quote.
fn literal_end_at(b: &[u8], i: usize) -> (r: Option<usize>)
    ensures
        match r {
            Some(e) => literal_end(b@, i as int) == Some(e as int) && i < e <= b@.len(),
            None => literal_end(b@, i as int) is None,
        },
{
    let n = b.len();
    if i >= n || b[i] != 34u8 {
        return None;
    }
    let mut j: usize = i + 1;
    while j < n
        invariant
            n == b@.len(),
            i < b@.len(),
            i + 1 <= j <= b@.len(),
            b@[i as int] == quote(),
            scan_body(b@, j as int) == scan_body(b@, i + 1),
        decreases b@.len() - j,
    {
        if b[j] == 34u8 {
            return Some(j + 1);
        }
        if b[j] == 92u8 {
            if j + 1 >= n {
                return None;
            }
            j = j + 2;
        } else {
            j = j + 1;
        }
    }
    None
}

/// The string literal at `i`, decoded, and where it ends.
pub(crate) fn read_str_at(b: &[u8], i: usize) -> (r: Option<(String, usize)>)
    ensures
        match r {
            Some((s, e)) => parse_str_at(b@, i as int) == Some((s@, e as int)) && i < e
                <= b@.len(),
            None => parse_str_at(b@, i as int) is None,
        },
{
    match literal_end_at(b, i) {
        None => None,
        Some(e) => {
            let lit = &b[i..e];
            assert(lit@ == b@.subrange(i as int, e as int));
            match decode_json_str(lit) {
                Some(s) => Some((s, e)),
                None => None,
            }
        },
    }
}

/// The record that starts at `i` of `b`, and the position just past it.
pub fn parse_record(b: &[u8], i: usize) -> (r: Option<(Record, usize)>)
    ensures
        match r {
            Some((rec, e)) => parse_record_at(b@, i as int) == Some((rec@, e as int)) && i < e
                <= b@.len(),
            None => parse_record_at(b@, i as int) is None,
        },
{
    let n = b.len();
    if matches_at(b, i, &set_head_lit()) {
        match read_str_at(b, i + 14) {
            None => None,
            Some((k, e1)) => {
                if !matches_at(b, e1, &value_sep_lit()) {
                    return None;
                }
                match read_str_at(b, e1 + 9) {
                    None => None,
                    Some((v, e2)) => {
                        if !matches_at(b, e2, &tail_lit()) {
                            return None;
                        }
                        Some((Record::Put { key: k, value: v }, e2 + 2))
                    },
                }
            },
        }
    } else if matches_at(b, i, &rm_head_lit()) {
        match read_str_at(b, i + 13) {
            None => None,
            Some((k, e1)) => {
                if !matches_at(b, e1, &tail_lit()) {
                    return None;
                }
                Some((Record::Rm { key: k }, e1 + 2))
            },
        }
    } else {
        None
    }
}

proof fn lemma_scan_shift(pre: Seq<u8>, x: Seq<u8>, i: int)
    requires
        0 <= i,
    ensures
        scan_body(pre + x, pre.len() + i) == match scan_body(x, i) {
            Some(q) => Some(q + pre.len()),
            None => None,
        },
    decreases x.len() - i,
{
    let b = pre + x;
    if i < x.len() {
        assert(b[pre.len() + i] == x[i]);
        if x[i] != quote() && x[i] == backslash() && i + 1 < x.len() {
            lemma_scan_shift(pre, x, i + 2);
            assert(pre.len() + i + 2 == pre.len() + (i + 2));
        } else if x[i] != quote() && x[i] != backslash() {
            lemma_scan_shift(pre, x, i + 1);
            assert(pre.len() + i + 1 == pre.len() + (i + 1));
        }
    }
}

proof fn lemma_scan_extend(l: Seq<u8>, rest: Seq<u8>, i: int)
    requires
        0 <= i,
        scan_body(l, i) is Some,
    ensures
        scan_body(l + rest, i) == scan_body(l, i),
    decreases l.len() - i,
{
    let b = l + rest;
    assert(b[i] == l[i]);
    if l[i] != quote() && l[i] == backslash() {
        lemma_scan_extend(l, rest, i + 2);
    } else if l[i] != quote() {
        lemma_scan_extend(l, rest, i + 1);
    }
}

/// A string literal followed by anything reads back as its text, and ends
/// where the literal ends.
pub(crate) proof fn lemma_str_at(pre: Seq<u8>, l: Seq<u8>, rest: Seq<u8>, s: Seq<char>)
    requires
        is_str_literal(l),
        json_str_decoded(l) == Some(s),
    ensures
        parse_str_at(pre + l + rest, pre.len() as int) == Some((s, (pre.len() + l.len()) as int)),
{
    let b = pre + l + rest;
    assert(b =~= pre + (l + rest));
    lemma_scan_extend(l, rest, 1);
    lemma_scan_shift(pre, l + rest, 1);
    assert(b[pre.len() as int] == l[0]);
    assert(b.subrange(pre.len() as int, (pre.len() + l.len()) as int) =~= l);
}

proof fn lemma_put_round_trip(pre: Seq<u8>, key: Seq<char>, value: Seq<char>, rest: Seq<u8>)
    requires
        str_encodable(key),
        str_encodable(value),
    ensures
        ({
            let r = RecordView::Put { key, value };
            parse_record_at(pre + record_bytes(r) + rest, pre.len() as int) == Some(
                (r, (pre.len() + record_bytes(r).len()) as int),
            )
        }),
{
    let r = RecordView::Put { key, value };
    let b = pre + record_bytes(r) + rest;
    let p = pre.len() as int;
    let kk = json_str_encoded(key);
    let vv = json_str_encoded(value);
    let before_key = pre + set_head();
    let r1 = value_sep() + vv + record_tail() + rest;
    assert(b =~= before_key + kk + r1);
    assert(b.subrange(p, p + set_head().len()) =~= set_head());
    lemma_str_at(before_key, kk, r1, key);
    let e1 = (before_key.len() + kk.len()) as int;
    assert(b.subrange(e1, e1 + value_sep().len()) =~= value_sep());
    let before_value = before_key + kk + value_sep();
    let r2 = record_tail() + rest;
    assert(b =~= before_value + vv + r2);
    lemma_str_at(before_value, vv, r2, value);
    let e2 = (before_value.len() + vv.len()) as int;
    assert(b.subrange(e2, e2 + 2) =~= record_tail());
    assert(e2 + 2 == p + record_bytes(r).len());
}

proof fn lemma_rm_round_trip(pre: Seq<u8>, key: Seq<char>, rest: Seq<u8>)
    requires
        str_encodable(key),
    ensures
        ({
            let r = RecordView::Rm { key };
            parse_record_at(pre + record_bytes(r) + rest, pre.len() as int) == Some(
                (r, (pre.len() + record_bytes(r).len()) as int),
            )
        }),
{
    let r = RecordView::Rm { key };
    let b = pre + record_bytes(r) + rest;
    let p = pre.len() as int;
    let kk = json_str_encoded(key);
    let before_key = pre + rm_head();
    let r1 = record_tail() + rest;
    assert(b =~= before_key + kk + r1);
    assert(b[p + 2] == 82u8);
    assert(set_head()[2] == 83u8);
    if has_at(b, p, set_head()) {
        assert(b.subrange(p, p + set_head().len())[2] == b[p + 2]);
    }
    assert(b.subrange(p, p + rm_head().len()) =~= rm_head());
    lemma_str_at(before_key, kk, r1, key);
    let e1 = (before_key.len() + kk.len()) as int;
    assert(b.subrange(e1, e1 + 2) =~= record_tail());
    assert(e1 + 2 == p + record_bytes(r).len());
}

/// The bytes of an encodable record, wherever they stand, parse back as that
/// record and end where its bytes end.
pub proof fn lemma_record_round_trip(pre: Seq<u8>, r: RecordView, rest: Seq<u8>)
    requires
        encodable(r),
    ensures
        parse_record_at(pre + record_bytes(r) + rest, pre.len() as int) == Some(
            (r, (pre.len() + record_bytes(r).len()) as int),
        ),
{
    match r {
        RecordView::Put { key, value } => lemma_put_round_trip(pre, key, value, rest),
        RecordView::Rm { key } => lemma_rm_round_trip(pre, key, rest),
    }
}

} // verus!
