//! The store's text format: a canonical, JSON-shaped rendering of the record
//! collection, with a verified round trip.
//!
//! A collection is written as an array of objects with the fields
//! `description`, `message`, `emails`, `active` and `send_date` (a quoted
//! `YYYY-MM-DD HH:MM` text or `null`), in that fixed order and without
//! padding. String values escape the quote, the backslash, newline, tab and
//! carriage return; other characters are written as themselves. The parser
//! accepts exactly what the renderer emits, so a load after a save yields the
//! saved collection, and a save after a load reproduces the file byte for
//! byte; anything else is reported as corrupt rather than silently dropped.

use vstd::prelude::*;
use crate::ice::{Ice, IceV};
use crate::stamp::{Stamp, stamp_text, pstamp_chars, xstamp16};
use crate::errors::StoreError;
use crate::text::{chars_of_str, append_chars, string_of_chars};

verus! {

// ---------------------------------------------------------------------------
// String escaping
// ---------------------------------------------------------------------------

/// How one character is written inside a quoted string.
pub open spec fn esc_char(c: char) -> Seq<char> {
    if c == '"' {
        seq!['\\', '"']
    } else if c == '\\' {
        seq!['\\', '\\']
    } else if c == '\n' {
        seq!['\\', 'n']
    } else if c == '\t' {
        seq!['\\', 't']
    } else if c == '\r' {
        seq!['\\', 'r']
    } else {
        seq![c]
    }
}

/// The character named by an escape introducer.
pub open spec fn unesc_char(c: char) -> Option<char> {
    if c == '"' {
        Some('"')
    } else if c == '\\' {
        Some('\\')
    } else if c == 'n' {
        Some('\n')
    } else if c == 't' {
        Some('\t')
    } else if c == 'r' {
        Some('\r')
    } else {
        None
    }
}

/// A whole string value, escaped.
pub open spec fn esc(s: Seq<char>) -> Seq<char>
    decreases s.len(),
{
    if s.len() == 0 {
        Seq::empty()
    } else {
        esc_char(s[0]) + esc(s.skip(1))
    }
}

// ---------------------------------------------------------------------------
// Fixed fragments of the record object
// ---------------------------------------------------------------------------

/// `{"description":"` — opens a record and its first field's value.
pub open spec fn k_desc() -> Seq<char> {
    seq!['{', '"', 'd', 'e', 's', 'c', 'r', 'i', 'p', 't', 'i', 'o', 'n', '"', ':', '"']
}

/// `,"message":"`
pub open spec fn k_msg() -> Seq<char> {
    seq![',', '"', 'm', 'e', 's', 's', 'a', 'g', 'e', '"', ':', '"']
}

/// `,"emails":[`
pub open spec fn k_emails() -> Seq<char> {
    seq![',', '"', 'e', 'm', 'a', 'i', 'l', 's', '"', ':', '[']
}

/// `,"active":`
pub open spec fn k_active() -> Seq<char> {
    seq![',', '"', 'a', 'c', 't', 'i', 'v', 'e', '"', ':']
}

/// `,"send_date":`
pub open spec fn k_date() -> Seq<char> {
    seq![',', '"', 's', 'e', 'n', 'd', '_', 'd', 'a', 't', 'e', '"', ':']
}

// ---------------------------------------------------------------------------
// Rendering
// ---------------------------------------------------------------------------

pub open spec fn rbool(b: bool) -> Seq<char> {
    if b {
        seq!['t', 'r', 'u', 'e']
    } else {
        seq!['f', 'a', 'l', 's', 'e']
    }
}

/// The schedule value together with the closing brace of the record.
pub open spec fn rdate_end(od: Option<Stamp>) -> Seq<char> {
    match od {
        None => seq!['n', 'u', 'l', 'l', '}'],
        Some(st) => seq!['"'] + stamp_text(st) + seq!['"', '}'],
    }
}

/// A quoted, escaped string value.
pub open spec fn rqstring(e: Seq<char>) -> Seq<char> {
    seq!['"'] + esc(e) + seq!['"']
}

/// The tail of a recipient array: `,"..."` repeated, then `]`.
pub open spec fn remails_rest(es: Seq<Seq<char>>) -> Seq<char>
    decreases es.len(),
{
    if es.len() == 0 {
        seq![']']
    } else {
        seq![','] + rqstring(es[0]) + remails_rest(es.skip(1))
    }
}

/// A recipient array after its opening bracket.
pub open spec fn remails(es: Seq<Seq<char>>) -> Seq<char> {
    if es.len() == 0 {
        seq![']']
    } else {
        rqstring(es[0]) + remails_rest(es.skip(1))
    }
}

/// One record object.
#[verifier::opaque]
pub open spec fn rrecord(r: IceV) -> Seq<char> {
    k_desc() + esc(r.description) + seq!['"'] + k_msg() + esc(r.message) + seq!['"'] + k_emails()
        + remails(r.emails) + k_active() + rbool(r.active) + k_date() + rdate_end(r.send_date)
}

/// The tail of the collection array: `,{...}` repeated, then `]`.
pub open spec fn rrecords_rest(rs: Seq<IceV>) -> Seq<char>
    decreases rs.len(),
{
    if rs.len() == 0 {
        seq![']']
    } else {
        seq![','] + rrecord(rs[0]) + rrecords_rest(rs.skip(1))
    }
}

/// The whole persisted collection.
pub open spec fn rrecords(rs: Seq<IceV>) -> Seq<char> {
    seq!['['] + (if rs.len() == 0 {
        seq![']']
    } else {
        rrecord(rs[0]) + rrecords_rest(rs.skip(1))
    })
}

// ---------------------------------------------------------------------------
// Parsing
// ---------------------------------------------------------------------------

pub open spec fn has_prefix(s: Seq<char>, p: Seq<char>) -> bool {
    p.len() <= s.len() && s.take(p.len() as int) == p
}

/// Parses a string value after its opening quote: the contents and the
/// count of characters consumed, closing quote included.
pub open spec fn pstr_body(s: Seq<char>) -> Option<(Seq<char>, nat)>
    decreases s.len(),
{
    if s.len() == 0 {
        None
    } else if s[0] == '"' {
        Some((Seq::empty(), 1nat))
    } else if s[0] == '\\' {
        if s.len() >= 2 {
            match unesc_char(s[1]) {
                Some(c) => match pstr_body(s.skip(2)) {
                    Some((t, n)) => Some((seq![c] + t, (n + 2) as nat)),
                    None => None,
                },
                None => None,
            }
        } else {
            None
        }
    } else if s[0] == '\n' || s[0] == '\t' || s[0] == '\r' {
        None
    } else {
        match pstr_body(s.skip(1)) {
            Some((t, n)) => Some((seq![s[0]] + t, (n + 1) as nat)),
            None => None,
        }
    }
}

pub open spec fn pbool(s: Seq<char>) -> Option<(bool, nat)> {
    if has_prefix(s, rbool(true)) {
        Some((true, 4nat))
    } else if has_prefix(s, rbool(false)) {
        Some((false, 5nat))
    } else {
        None
    }
}

/// Parses the schedule value and the record's closing brace.
pub open spec fn pdate_end(s: Seq<char>) -> Option<(Option<Stamp>, nat)> {
    if has_prefix(s, seq!['n', 'u', 'l', 'l', '}']) {
        Some((None, 5nat))
    } else if s.len() >= 19 && s[0] == '"' && pstamp_chars(s.subrange(1, 17)) is Some && s[17]
        == '"' && s[18] == '}' {
        Some((Some(pstamp_chars(s.subrange(1, 17))->Some_0), 19nat))
    } else {
        None
    }
}

/// Parses a non-empty recipient list: quoted strings separated by commas,
/// up to and including the closing bracket.
pub open spec fn pemails_items(s: Seq<char>) -> Option<(Seq<Seq<char>>, nat)>
    decreases s.len(),
{
    if s.len() >= 1 && s[0] == '"' {
        match pstr_body(s.skip(1)) {
            Some((e, n)) => {
                let k = (n + 1) as nat;
                if k < s.len() {
                    if s[k as int] == ',' {
                        match pemails_items(s.skip(k + 1 as int)) {
                            Some((es, m)) => Some((seq![e] + es, (k + 1 + m) as nat)),
                            None => None,
                        }
                    } else if s[k as int] == ']' {
                        Some((seq![e], (k + 1) as nat))
                    } else {
                        None
                    }
                } else {
                    None
                }
            },
            None => None,
        }
    } else {
        None
    }
}

/// Parses a recipient array after its opening bracket.
pub open spec fn pemails(s: Seq<char>) -> Option<(Seq<Seq<char>>, nat)> {
    if s.len() >= 1 && s[0] == ']' {
        Some((Seq::empty(), 1nat))
    } else {
        pemails_items(s)
    }
}

/// Parses one record object; accepts only records satisfying the armed/
/// scheduled invariant.
#[verifier::opaque]
pub open spec fn precord(s: Seq<char>) -> Option<(IceV, nat)> {
    if has_prefix(s, k_desc()) {
        let t1 = s.skip(k_desc().len() as int);
        match pstr_body(t1) {
            Some((d, n1)) => {
                let t2 = t1.skip(n1 as int);
                if has_prefix(t2, k_msg()) {
                    let t3 = t2.skip(k_msg().len() as int);
                    match pstr_body(t3) {
                        Some((m, n2)) => {
                            let t4 = t3.skip(n2 as int);
                            if has_prefix(t4, k_emails()) {
                                let t5 = t4.skip(k_emails().len() as int);
                                match pemails(t5) {
                                    Some((es, n3)) => {
                                        let t6 = t5.skip(n3 as int);
                                        if has_prefix(t6, k_active()) {
                                            let t7 = t6.skip(k_active().len() as int);
                                            match pbool(t7) {
                                                Some((b, n4)) => {
                                                    let t8 = t7.skip(n4 as int);
                                                    if has_prefix(t8, k_date()) {
                                                        let t9 = t8.skip(k_date().len() as int);
                                                        match pdate_end(t9) {
                                                            Some((od, n5)) => {
                                                                if b == (od is Some) {
                                                                    Some(
                                                                        (
                                                                            IceV {
                                                                                description: d,
                                                                                message: m,
                                                                                emails: es,
                                                                                active: b,
                                                                                send_date: od,
                                                                            },
                                                                            (k_desc().len() + n1
                                                                                + k_msg().len() + n2
                                                                                + k_emails().len()
                                                                                + n3
                                                                                + k_active().len()
                                                                                + n4 + k_date().len()
                                                                                + n5) as nat,
                                                                        ),
                                                                    )
                                                                } else {
                                                                    None
                                                                }
                                                            },
                                                            None => None,
                                                        }
                                                    } else {
                                                        None
                                                    }
                                                },
                                                None => None,
                                            }
                                        } else {
                                            None
                                        }
                                    },
                                    None => None,
                                }
                            } else {
                                None
                            }
                        },
                        None => None,
                    }
                } else {
                    None
                }
            },
            None => None,
        }
    } else {
        None
    }
}

/// Parses a non-empty record list up to and including the closing bracket.
pub open spec fn precords_items(s: Seq<char>) -> Option<(Seq<IceV>, nat)>
    decreases s.len(),
{
    match precord(s) {
        Some((r, n)) => {
            if n < s.len() {
                if s[n as int] == ',' {
                    match precords_items(s.skip(n + 1 as int)) {
                        Some((rs, m)) => Some((seq![r] + rs, (n + 1 + m) as nat)),
                        None => None,
                    }
                } else if s[n as int] == ']' {
                    Some((seq![r], (n + 1) as nat))
                } else {
                    None
                }
            } else {
                None
            }
        },
        None => None,
    }
}

/// Parses a whole persisted collection: the canonical rendering of some
/// record sequence, and nothing else.
pub open spec fn pfile(s: Seq<char>) -> Option<Seq<IceV>> {
    if s.len() >= 2 && s[0] == '[' {
        if s.len() == 2 && s[1] == ']' {
            Some(Seq::empty())
        } else {
            match precords_items(s.skip(1)) {
                Some((rs, n)) => {
                    if 1 + n == s.len() {
                        Some(rs)
                    } else {
                        None
                    }
                },
                None => None,
            }
        }
    } else {
        None
    }
}

// ---------------------------------------------------------------------------
// The parser inverts the renderer
// ---------------------------------------------------------------------------

/// Concatenation is associative.
pub proof fn lemma_add_assoc<T>(a: Seq<T>, b: Seq<T>, c: Seq<T>)
    ensures
        (a + b) + c == a + (b + c),
{
    assert((a + b) + c =~= a + (b + c));
}

/// Dropping in two steps is dropping once.
pub proof fn lemma_skip_skip<T>(s: Seq<T>, a: int, b: int)
    requires
        0 <= a,
        0 <= b,
        a + b <= s.len(),
    ensures
        s.skip(a).skip(b) == s.skip(a + b),
{
    assert(s.skip(a).skip(b) =~= s.skip(a + b));
}

/// A concatenation starts with its first operand and drops to the second.
pub proof fn lemma_prefix_skip(p: Seq<char>, rest: Seq<char>)
    ensures
        has_prefix(p + rest, p),
        (p + rest).skip(p.len() as int) == rest,
{
    assert((p + rest).take(p.len() as int) =~= p);
    assert((p + rest).skip(p.len() as int) =~= rest);
}

/// A string body parse consumes exactly an escaped value and its closing
/// quote, and yields the value back.
proof fn lemma_pstr_esc(s: Seq<char>, rest: Seq<char>)
    ensures
        pstr_body(esc(s) + seq!['"'] + rest) == Some((s, (esc(s).len() + 1) as nat)),
    decreases s.len(),
{
    let input = esc(s) + seq!['"'] + rest;
    if s.len() == 0 {
        assert(esc(s) =~= Seq::<char>::empty());
        assert(input =~= seq!['"'] + rest);
        assert(input[0] == '"');
    } else {
        let c = s[0];
        let tail = s.skip(1);
        let tinput = esc(tail) + seq!['"'] + rest;
        lemma_pstr_esc(tail, rest);
        assert(esc(s) == esc_char(c) + esc(tail));
        if c == '"' || c == '\\' || c == '\n' || c == '\t' || c == '\r' {
            let e = esc_char(c)[1];
            assert(esc_char(c).len() == 2);
            assert(input =~= esc_char(c) + tinput);
            assert(input[0] == '\\');
            assert(input[1] == e);
            assert(unesc_char(e) == Some(c));
            assert(input.skip(2) =~= tinput);
            assert(input.len() >= 2);
            assert(pstr_body(input) == Some((seq![c] + tail, (esc(tail).len() + 1 + 2) as nat)));
            assert(seq![c] + tail =~= s);
            assert(esc(s).len() == 2 + esc(tail).len());
        } else {
            assert(esc_char(c) =~= seq![c]);
            assert(input =~= seq![c] + tinput);
            assert(input[0] == c);
            assert(input.skip(1) =~= tinput);
            assert(pstr_body(input) == Some((seq![c] + tail, (esc(tail).len() + 1 + 1) as nat)));
            assert(seq![c] + tail =~= s);
        }
    }
}

/// A boolean parse consumes exactly its rendering.
proof fn lemma_pbool_r(b: bool, rest: Seq<char>)
    ensures
        pbool(rbool(b) + rest) == Some((b, rbool(b).len() as nat)),
{
    let s = rbool(b) + rest;
    lemma_prefix_skip(rbool(b), rest);
    if !b {
        assert(s[0] == 'f');
        if has_prefix(s, rbool(true)) {
            assert(s.take(4)[0] == s[0]);
            assert(false);
        }
    }
}

/// A schedule-and-brace parse consumes exactly its rendering.
proof fn lemma_pdate_r(od: Option<Stamp>, rest: Seq<char>)
    requires
        od is Some ==> od->Some_0.wf(),
    ensures
        pdate_end(rdate_end(od) + rest) == Some((od, rdate_end(od).len() as nat)),
{
    let s = rdate_end(od) + rest;
    match od {
        None => {
            lemma_prefix_skip(seq!['n', 'u', 'l', 'l', '}'], rest);
        },
        Some(st) => {
            assert(s[0] == '"');
            if has_prefix(s, seq!['n', 'u', 'l', 'l', '}']) {
                assert(s.take(5)[0] == s[0]);
                assert(false);
            }
            assert(s.len() >= 19);
            assert(s.subrange(1, 17) =~= stamp_text(st));
            crate::stamp::lemma_pstamp_round(st);
            assert(s[17] == '"');
            assert(s[18] == '}');
        },
    }
}

/// A non-empty recipient-list parse consumes exactly its rendering and
/// yields the recipients back.
proof fn lemma_pemails_items_r(es: Seq<Seq<char>>, rest: Seq<char>)
    requires
        es.len() >= 1,
    ensures
        pemails_items(rqstring(es[0]) + remails_rest(es.skip(1)) + rest) == Some(
            (es, (rqstring(es[0]).len() + remails_rest(es.skip(1)).len()) as nat),
        ),
    decreases es.len(),
{
    let e0 = es[0];
    let tail = es.skip(1);
    let s = rqstring(e0) + remails_rest(tail) + rest;
    assert(s[0] == '"');
    assert(s.skip(1) =~= esc(e0) + seq!['"'] + (remails_rest(tail) + rest));
    lemma_pstr_esc(e0, remails_rest(tail) + rest);
    let n = (esc(e0).len() + 1) as nat;
    let k = (n + 1) as nat;
    assert(k == rqstring(e0).len());
    if tail.len() == 0 {
        assert(remails_rest(tail) == seq![']']);
        assert(s[k as int] == ']');
        assert(k < s.len());
        assert(seq![e0] =~= es);
    } else {
        assert(remails_rest(tail) == seq![','] + rqstring(tail[0]) + remails_rest(tail.skip(1)));
        assert(s[k as int] == ',');
        assert(k < s.len());
        assert(s.skip(k + 1 as int) =~= rqstring(tail[0]) + remails_rest(tail.skip(1)) + rest);
        lemma_pemails_items_r(tail, rest);
        assert(seq![e0] + tail =~= es);
    }
}

/// A recipient-array parse consumes exactly its rendering.
proof fn lemma_pemails_r(es: Seq<Seq<char>>, rest: Seq<char>)
    ensures
        pemails(remails(es) + rest) == Some((es, remails(es).len() as nat)),
{
    let s = remails(es) + rest;
    if es.len() == 0 {
        assert(s[0] == ']');
        assert(es =~= Seq::<Seq<char>>::empty());
    } else {
        assert(s[0] == '"');
        assert(s =~= rqstring(es[0]) + remails_rest(es.skip(1)) + rest);
        lemma_pemails_items_r(es, rest);
    }
}

/// A record parse consumes exactly its rendering and yields the record back.
#[verifier::rlimit(100)]
proof fn lemma_precord_r(r: IceV, rest: Seq<char>)
    requires
        r.inv(),
    ensures
        precord(rrecord(r) + rest) == Some((r, rrecord(r).len() as nat)),
{
    reveal(precord);
    reveal(rrecord);
    let s = rrecord(r) + rest;
    let x7 = rdate_end(r.send_date) + rest;
    let x6 = k_date() + x7;
    let x5 = rbool(r.active) + x6;
    let x4 = k_active() + x5;
    let x3 = remails(r.emails) + x4;
    let x2 = k_emails() + x3;
    let x1 = (esc(r.message) + seq!['"']) + x2;
    let x0 = k_msg() + x1;
    let xd = (esc(r.description) + seq!['"']) + x0;
    assert(s =~= k_desc() + xd);
    lemma_prefix_skip(k_desc(), xd);
    assert(has_prefix(s, k_desc()));
    let t1 = s.skip(k_desc().len() as int);
    assert(t1 == xd);
    lemma_pstr_esc(r.description, x0);
    let n1 = (esc(r.description).len() + 1) as nat;
    assert(pstr_body(t1) == Some((r.description, n1)));
    let t2 = t1.skip(n1 as int);
    lemma_prefix_skip(esc(r.description) + seq!['"'], x0);
    assert(t2 == x0);
    lemma_prefix_skip(k_msg(), x1);
    assert(has_prefix(t2, k_msg()));
    let t3 = t2.skip(k_msg().len() as int);
    assert(t3 == x1);
    lemma_pstr_esc(r.message, x2);
    let n2 = (esc(r.message).len() + 1) as nat;
    assert(pstr_body(t3) == Some((r.message, n2)));
    let t4 = t3.skip(n2 as int);
    lemma_prefix_skip(esc(r.message) + seq!['"'], x2);
    assert(t4 == x2);
    lemma_prefix_skip(k_emails(), x3);
    assert(has_prefix(t4, k_emails()));
    let t5 = t4.skip(k_emails().len() as int);
    assert(t5 == x3);
    lemma_pemails_r(r.emails, x4);
    let n3 = remails(r.emails).len() as nat;
    assert(pemails(t5) == Some((r.emails, n3)));
    let t6 = t5.skip(n3 as int);
    lemma_prefix_skip(remails(r.emails), x4);
    assert(t6 == x4);
    lemma_prefix_skip(k_active(), x5);
    assert(has_prefix(t6, k_active()));
    let t7 = t6.skip(k_active().len() as int);
    assert(t7 == x5);
    lemma_pbool_r(r.active, x6);
    let n4 = rbool(r.active).len() as nat;
    assert(pbool(t7) == Some((r.active, n4)));
    let t8 = t7.skip(n4 as int);
    lemma_prefix_skip(rbool(r.active), x6);
    assert(t8 == x6);
    lemma_prefix_skip(k_date(), x7);
    assert(has_prefix(t8, k_date()));
    let t9 = t8.skip(k_date().len() as int);
    assert(t9 == x7);
    lemma_pdate_r(r.send_date, rest);
    let n5 = rdate_end(r.send_date).len() as nat;
    assert(pdate_end(t9) == Some((r.send_date, n5)));
    assert(r.active == (r.send_date is Some));
    assert((IceV {
        description: r.description,
        message: r.message,
        emails: r.emails,
        active: r.active,
        send_date: r.send_date,
    }) == r);
    assert(k_desc().len() + n1 + k_msg().len() + n2 + k_emails().len() + n3 + k_active().len() + n4
        + k_date().len() + n5 == rrecord(r).len());
}

/// A non-empty record-list parse consumes exactly its rendering and yields
/// the records back.
#[verifier::rlimit(100)]
#[verifier::spinoff_prover]
proof fn lemma_precords_items_r(rs: Seq<IceV>, rest: Seq<char>)
    requires
        rs.len() >= 1,
        forall|i: int| 0 <= i < rs.len() ==> rs[i].inv(),
    ensures
        precords_items(rrecord(rs[0]) + rrecords_rest(rs.skip(1)) + rest) == Some(
            (rs, (rrecord(rs[0]).len() + rrecords_rest(rs.skip(1)).len()) as nat),
        ),
    decreases rs.len(),
{
    let r0 = rs[0];
    let tail = rs.skip(1);
    let s = rrecord(r0) + rrecords_rest(tail) + rest;
    let y = rrecords_rest(tail) + rest;
    let n = rrecord(r0).len() as nat;
    assert(s == rrecord(r0) + y) by {
        lemma_add_assoc(rrecord(r0), rrecords_rest(tail), rest);
    }
    assert(precord(s) == Some((r0, n))) by {
        lemma_precord_r(r0, y);
    }
    assert(s.skip(n as int) == y) by {
        lemma_prefix_skip(rrecord(r0), y);
    }
    if tail.len() == 0 {
        assert(rrecords_rest(tail) == seq![']']);
        assert(y[0] == ']');
        assert(s[n as int] == y[0]);
        assert(n < s.len());
        assert(precords_items(s) == Some((seq![r0], (n + 1) as nat)));
        assert(seq![r0] =~= rs);
        assert(rrecords_rest(tail).len() == 1);
        assert((n + 1) as nat == (rrecord(rs[0]).len() + rrecords_rest(rs.skip(1)).len()) as nat);
    } else {
        let rec1 = rrecord(tail[0]);
        let rr2 = rrecords_rest(tail.skip(1));
        let m = (rec1.len() + rr2.len()) as nat;
        assert(rrecords_rest(tail) == seq![','] + rec1 + rr2);
        assert(y == seq![','] + ((rec1 + rr2) + rest)) by {
            lemma_add_assoc(seq![','], rec1, rr2);
            lemma_add_assoc(seq![','], rec1 + rr2, rest);
        }
        assert(y[0] == ',');
        assert(s[n as int] == y[0]);
        assert(n < s.len());
        assert(s.skip(n + 1 as int) == rec1 + rr2 + rest) by {
            lemma_prefix_skip(seq![','], (rec1 + rr2) + rest);
            lemma_skip_skip(s, n as int, 1);
            lemma_add_assoc(rec1, rr2, rest);
        }
        assert(forall|i: int| 0 <= i < tail.len() ==> tail[i].inv()) by {
            assert forall|i: int| 0 <= i < tail.len() implies tail[i].inv() by {
                assert(tail[i] == rs[i + 1]);
            }
        }
        assert(precords_items(s.skip(n + 1 as int)) == Some((tail, m))) by {
            lemma_precords_items_r(tail, rest);
        }
        assert(precords_items(s) == Some((seq![r0] + tail, (n + 1 + m) as nat)));
        assert(seq![r0] + tail =~= rs);
        assert(rrecords_rest(tail).len() == 1 + m);
        assert((n + 1 + m) as nat == (rrecord(rs[0]).len() + rrecords_rest(rs.skip(1)).len())
            as nat);
    }
}

/// The round trip at the collection level: the canonical rendering of any
/// collection of invariant-respecting records parses back to exactly that
/// collection. Together with the renderer's and parser's contracts this
/// makes a save-then-load the identity, and a load-then-save reproduce the
/// file byte for byte.
#[verifier::rlimit(100)]
#[verifier::spinoff_prover]
pub proof fn lemma_pfile_round(rs: Seq<IceV>)
    requires
        forall|i: int| 0 <= i < rs.len() ==> rs[i].inv(),
    ensures
        pfile(rrecords(rs)) == Some(rs),
{
    let s = rrecords(rs);
    if rs.len() == 0 {
        assert(s =~= seq!['[', ']']);
        assert(s.len() == 2 && s[0] == '[' && s[1] == ']');
        assert(rs =~= Seq::<IceV>::empty());
    } else {
        let body = rrecord(rs[0]) + rrecords_rest(rs.skip(1));
        assert(s == seq!['['] + body);
        assert(s[0] == '[');
        lemma_prefix_skip(seq!['['], body);
        assert(s.skip(1) == body);
        assert(body + Seq::<char>::empty() =~= body);
        lemma_precords_items_r(rs, Seq::empty());
        let n = (rrecord(rs[0]).len() + rrecords_rest(rs.skip(1)).len()) as nat;
        assert(precords_items(s.skip(1)) == Some((rs, n)));
        assert(rrecord(rs[0]).len() >= 16) by {
            reveal(rrecord);
        }
        assert(s.len() > 2);
        assert(1 + n == s.len());
    }
}


// ---------------------------------------------------------------------------
// The renderer inverts the parser: accepted text is canonical
// ---------------------------------------------------------------------------

/// Taking in two steps splits a prefix in two.
pub proof fn lemma_take_split<T>(s: Seq<T>, a: int, b: int)
    requires
        0 <= a,
        0 <= b,
        a + b <= s.len(),
    ensures
        s.take(a + b) == s.take(a) + s.skip(a).take(b),
{
    assert(s.take(a + b) =~= s.take(a) + s.skip(a).take(b));
}

/// What a string-body parse consumed is exactly the escaped value and its
/// closing quote.
proof fn lemma_pstr_sound(s: Seq<char>)
    requires
        pstr_body(s) is Some,
    ensures
        ({
            let (t, n) = pstr_body(s)->Some_0;
            n == esc(t).len() + 1 && n <= s.len() && s.take(n as int) == esc(t) + seq!['"']
        }),
    decreases s.len(),
{
    let (t, n) = pstr_body(s)->Some_0;
    if s[0] == '"' {
        assert(esc(t) == Seq::<char>::empty());
        assert(s.take(1) =~= esc(t) + seq!['"']);
    } else if s[0] == '\\' {
        let e = s[1];
        let c = unesc_char(e)->Some_0;
        lemma_pstr_sound(s.skip(2));
        let (t2, n2) = pstr_body(s.skip(2))->Some_0;
        assert(esc_char(c) == seq!['\\', e]);
        assert((seq![c] + t2)[0] == c);
        assert((seq![c] + t2).skip(1) =~= t2);
        assert(esc(t) == esc_char(c) + esc(t2));
        lemma_take_split(s, 2, n2 as int);
        assert(s.take(2) =~= seq!['\\', e]);
        assert(seq!['\\', e] + (esc(t2) + seq!['"']) =~= (seq!['\\', e] + esc(t2)) + seq!['"']);
        assert(esc(t) =~= seq!['\\', e] + esc(t2));
    } else {
        let c = s[0];
        lemma_pstr_sound(s.skip(1));
        let (t2, n2) = pstr_body(s.skip(1))->Some_0;
        assert(esc_char(c) == seq![c]);
        assert((seq![c] + t2)[0] == c);
        assert((seq![c] + t2).skip(1) =~= t2);
        assert(esc(t) == esc_char(c) + esc(t2));
        lemma_take_split(s, 1, n2 as int);
        assert(s.take(1) =~= seq![c]);
        assert(seq![c] + (esc(t2) + seq!['"']) =~= (seq![c] + esc(t2)) + seq!['"']);
        assert(esc(t) =~= seq![c] + esc(t2));
    }
}

/// What a boolean parse consumed is exactly the flag's rendering.
proof fn lemma_pbool_sound(s: Seq<char>)
    requires
        pbool(s) is Some,
    ensures
        ({
            let (b, n) = pbool(s)->Some_0;
            n == rbool(b).len() && n <= s.len() && s.take(n as int) == rbool(b)
        }),
{
}

/// What a schedule-and-brace parse consumed is exactly the schedule's
/// rendering, and any stamp in it is well formed.
proof fn lemma_pdate_sound(s: Seq<char>)
    requires
        pdate_end(s) is Some,
    ensures
        ({
            let (od, n) = pdate_end(s)->Some_0;
            n <= s.len() && s.take(n as int) == rdate_end(od) && (od is Some
                ==> od->Some_0.wf())
        }),
{
    let (od, n) = pdate_end(s)->Some_0;
    if has_prefix(s, seq!['n', 'u', 'l', 'l', '}']) {
    } else {
        let st = pstamp_chars(s.subrange(1, 17))->Some_0;
        crate::stamp::lemma_pstamp_sound(s.subrange(1, 17));
        assert(s.take(19) =~= seq!['"'] + stamp_text(st) + seq!['"', '}']);
    }
}

/// What a non-empty recipient-list parse consumed is exactly the list's
/// rendering.
proof fn lemma_pemails_items_sound(s: Seq<char>)
    requires
        pemails_items(s) is Some,
    ensures
        ({
            let (es, m) = pemails_items(s)->Some_0;
            es.len() >= 1 && m <= s.len() && s.take(m as int) == rqstring(es[0]) + remails_rest(
                es.skip(1),
            )
        }),
    decreases s.len(),
{
    let (es, m) = pemails_items(s)->Some_0;
    let (e, n) = pstr_body(s.skip(1))->Some_0;
    lemma_pstr_sound(s.skip(1));
    let k = (n + 1) as nat;
    assert(s.take(k as int) == rqstring(e)) by {
        lemma_take_split(s, 1, n as int);
        assert(s.take(1) =~= seq!['"']);
        assert(seq!['"'] + (esc(e) + seq!['"']) =~= rqstring(e));
    }
    if s[k as int] == ',' {
        let (es2, m2) = pemails_items(s.skip(k + 1 as int))->Some_0;
        lemma_pemails_items_sound(s.skip(k + 1 as int));
        assert((seq![e] + es2)[0] == e);
        assert((seq![e] + es2).skip(1) =~= es2);
        assert(s.take(m as int) == rqstring(e) + remails_rest(es2)) by {
            lemma_take_split(s, k as int, (1 + m2) as int);
            lemma_take_split(s.skip(k as int), 1, m2 as int);
            lemma_skip_skip(s, k as int, 1);
            assert(s.skip(k as int).take(1) =~= seq![',']);
            assert(remails_rest(es2) == seq![','] + rqstring(es2[0]) + remails_rest(es2.skip(1)));
            assert(seq![','] + (rqstring(es2[0]) + remails_rest(es2.skip(1))) =~= remails_rest(
                es2,
            ));
            assert(rqstring(e) + (seq![','] + (rqstring(es2[0]) + remails_rest(es2.skip(1))))
                =~= rqstring(e) + remails_rest(es2));
        }
    } else {
        assert((seq![e])[0] == e);
        assert((seq![e]).skip(1) =~= Seq::<Seq<char>>::empty());
        assert(remails_rest(Seq::<Seq<char>>::empty()) == seq![']']);
        assert(s.take(m as int) == rqstring(e) + seq![']']) by {
            lemma_take_split(s, k as int, 1);
            assert(s.skip(k as int).take(1) =~= seq![']']);
        }
    }
}

/// What a recipient-array parse consumed is exactly the array's rendering.
proof fn lemma_pemails_sound(s: Seq<char>)
    requires
        pemails(s) is Some,
    ensures
        ({
            let (es, m) = pemails(s)->Some_0;
            m <= s.len() && s.take(m as int) == remails(es)
        }),
{
    let (es, m) = pemails(s)->Some_0;
    if s.len() >= 1 && s[0] == ']' {
        assert(s.take(1) =~= seq![']']);
    } else {
        lemma_pemails_items_sound(s);
    }
}

/// The record rendering, re-associated to the right.
proof fn lemma_rrecord_assoc(r: IceV)
    ensures
        rrecord(r) == k_desc() + ((esc(r.description) + seq!['"']) + (k_msg() + ((esc(r.message)
            + seq!['"']) + (k_emails() + (remails(r.emails) + (k_active() + (rbool(r.active) + (
        k_date() + rdate_end(r.send_date))))))))),
{
    reveal(rrecord);
    assert(rrecord(r) =~= k_desc() + ((esc(r.description) + seq!['"']) + (k_msg() + ((esc(
        r.message,
    ) + seq!['"']) + (k_emails() + (remails(r.emails) + (k_active() + (rbool(r.active) + (k_date()
        + rdate_end(r.send_date))))))))));
}

/// The stage-by-stage shape of an accepted record parse.
#[verifier::rlimit(100)]
#[verifier::spinoff_prover]
proof fn lemma_precord_structure(s: Seq<char>)
    requires
        precord(s) is Some,
    ensures
        ({
            let (r, n) = precord(s)->Some_0;
            let t1 = s.skip(k_desc().len() as int);
            let (d, n1) = pstr_body(t1)->Some_0;
            let t2 = t1.skip(n1 as int);
            let t3 = t2.skip(k_msg().len() as int);
            let (m, n2) = pstr_body(t3)->Some_0;
            let t4 = t3.skip(n2 as int);
            let t5 = t4.skip(k_emails().len() as int);
            let (es, n3) = pemails(t5)->Some_0;
            let t6 = t5.skip(n3 as int);
            let t7 = t6.skip(k_active().len() as int);
            let (b, n4) = pbool(t7)->Some_0;
            let t8 = t7.skip(n4 as int);
            let t9 = t8.skip(k_date().len() as int);
            let (od, n5) = pdate_end(t9)->Some_0;
            has_prefix(s, k_desc()) && pstr_body(t1) is Some && has_prefix(t2, k_msg())
                && pstr_body(t3) is Some && has_prefix(t4, k_emails()) && pemails(t5) is Some
                && has_prefix(t6, k_active()) && pbool(t7) is Some && has_prefix(t8, k_date())
                && pdate_end(t9) is Some && b == (od is Some) && r == (IceV {
                description: d,
                message: m,
                emails: es,
                active: b,
                send_date: od,
            }) && n == (k_desc().len() + n1 + k_msg().len() + n2 + k_emails().len() + n3
                + k_active().len() + n4 + k_date().len() + n5) as nat
        }),
{
    reveal(precord);
}

/// What the emails-to-end tail of a record parse consumed is exactly its
/// rendering.
#[verifier::rlimit(100)]
#[verifier::spinoff_prover]
proof fn lemma_precord_tail_sound(t5: Seq<char>)
    requires
        pemails(t5) is Some,
        ({
            let (es, n3) = pemails(t5)->Some_0;
            let t6 = t5.skip(n3 as int);
            let t7 = t6.skip(k_active().len() as int);
            has_prefix(t6, k_active()) && pbool(t7) is Some && ({
                let (b, n4) = pbool(t7)->Some_0;
                let t8 = t7.skip(n4 as int);
                let t9 = t8.skip(k_date().len() as int);
                has_prefix(t8, k_date()) && pdate_end(t9) is Some
            })
        }),
    ensures
        ({
            let (es, n3) = pemails(t5)->Some_0;
            let t6 = t5.skip(n3 as int);
            let t7 = t6.skip(k_active().len() as int);
            let (b, n4) = pbool(t7)->Some_0;
            let t8 = t7.skip(n4 as int);
            let t9 = t8.skip(k_date().len() as int);
            let (od, n5) = pdate_end(t9)->Some_0;
            let total = (n3 + k_active().len() + n4 + k_date().len() + n5) as nat;
            total <= t5.len() && t5.take(total as int) == remails(es) + (k_active() + (rbool(b)
                + (k_date() + rdate_end(od)))) && (od is Some ==> od->Some_0.wf())
        }),
{
    let (es, n3) = pemails(t5)->Some_0;
    let t6 = t5.skip(n3 as int);
    let t7 = t6.skip(k_active().len() as int);
    let (b, n4) = pbool(t7)->Some_0;
    let t8 = t7.skip(n4 as int);
    let t9 = t8.skip(k_date().len() as int);
    let (od, n5) = pdate_end(t9)->Some_0;
    lemma_pemails_sound(t5);
    lemma_pbool_sound(t7);
    lemma_pdate_sound(t9);
    let w9 = rdate_end(od);
    let w8 = k_date() + w9;
    let w7 = rbool(b) + w8;
    let w6 = k_active() + w7;
    assert(t9.take(n5 as int) == w9);
    assert(t8.take((k_date().len() + n5) as int) == w8) by {
        lemma_take_split(t8, k_date().len() as int, n5 as int);
        assert(t8.take(k_date().len() as int) == k_date());
    }
    assert(t7.take((n4 + k_date().len() + n5) as int) == w7) by {
        lemma_take_split(t7, n4 as int, (k_date().len() + n5) as int);
        assert(t7.take(n4 as int) == rbool(b));
    }
    assert(t6.take((k_active().len() + n4 + k_date().len() + n5) as int) == w6) by {
        lemma_take_split(t6, k_active().len() as int, (n4 + k_date().len() + n5) as int);
        assert(t6.take(k_active().len() as int) == k_active());
    }
    assert(t5.take((n3 + k_active().len() + n4 + k_date().len() + n5) as int) == remails(es)
        + w6) by {
        lemma_take_split(t5, n3 as int, (k_active().len() + n4 + k_date().len() + n5) as int);
        assert(t5.take(n3 as int) == remails(es));
    }
}

/// What the message-to-end tail of a record parse consumed is exactly its
/// rendering.
#[verifier::rlimit(100)]
#[verifier::spinoff_prover]
proof fn lemma_precord_mid_sound(s: Seq<char>)
    requires
        precord(s) is Some,
    ensures
        ({
            let t1 = s.skip(k_desc().len() as int);
            let (d, n1) = pstr_body(t1)->Some_0;
            let t2 = t1.skip(n1 as int);
            let t3 = t2.skip(k_msg().len() as int);
            let (m, n2) = pstr_body(t3)->Some_0;
            let t4 = t3.skip(n2 as int);
            let t5 = t4.skip(k_emails().len() as int);
            let (es, n3) = pemails(t5)->Some_0;
            let t6 = t5.skip(n3 as int);
            let t7 = t6.skip(k_active().len() as int);
            let (b, n4) = pbool(t7)->Some_0;
            let t8 = t7.skip(n4 as int);
            let t9 = t8.skip(k_date().len() as int);
            let (od, n5) = pdate_end(t9)->Some_0;
            let back = (n3 + k_active().len() + n4 + k_date().len() + n5) as int;
            let w5 = remails(es) + (k_active() + (rbool(b) + (k_date() + rdate_end(od))));
            n2 + k_emails().len() + back <= t3.len() && t3.take(n2 + k_emails().len() + back)
                == (esc(m) + seq!['"']) + (k_emails() + w5) && (od is Some ==> od->Some_0.wf())
        }),
{
    let t1 = s.skip(k_desc().len() as int);
    let (d, n1) = pstr_body(t1)->Some_0;
    let t2 = t1.skip(n1 as int);
    let t3 = t2.skip(k_msg().len() as int);
    let (m, n2) = pstr_body(t3)->Some_0;
    let t4 = t3.skip(n2 as int);
    let t5 = t4.skip(k_emails().len() as int);
    let (es, n3) = pemails(t5)->Some_0;
    let t6 = t5.skip(n3 as int);
    let t7 = t6.skip(k_active().len() as int);
    let (b, n4) = pbool(t7)->Some_0;
    let t8 = t7.skip(n4 as int);
    let t9 = t8.skip(k_date().len() as int);
    let (od, n5) = pdate_end(t9)->Some_0;
    lemma_precord_structure(s);
    lemma_pstr_sound(t3);
    lemma_precord_tail_sound(t5);
    let back = (n3 + k_active().len() + n4 + k_date().len() + n5) as int;
    let w5 = remails(es) + (k_active() + (rbool(b) + (k_date() + rdate_end(od))));
    assert(t4.take(k_emails().len() + back) == k_emails() + w5) by {
        lemma_take_split(t4, k_emails().len() as int, back);
        assert(t4.take(k_emails().len() as int) == k_emails());
    }
    assert(t3.take(n2 + k_emails().len() + back) == (esc(m) + seq!['"']) + (k_emails() + w5)) by {
        lemma_take_split(t3, n2 as int, k_emails().len() + back);
        assert(t3.take(n2 as int) == esc(m) + seq!['"']);
    }
}

/// What a record parse consumed is exactly the record's rendering, and the
/// record satisfies the armed/scheduled invariant.
#[verifier::rlimit(100)]
#[verifier::spinoff_prover]
proof fn lemma_precord_sound(s: Seq<char>)
    requires
        precord(s) is Some,
    ensures
        ({
            let (r, n) = precord(s)->Some_0;
            n <= s.len() && s.take(n as int) == rrecord(r) && r.inv()
        }),
{
    let (r, n) = precord(s)->Some_0;
    let t1 = s.skip(k_desc().len() as int);
    let (d, n1) = pstr_body(t1)->Some_0;
    let t2 = t1.skip(n1 as int);
    let t3 = t2.skip(k_msg().len() as int);
    let (m, n2) = pstr_body(t3)->Some_0;
    let t4 = t3.skip(n2 as int);
    let t5 = t4.skip(k_emails().len() as int);
    let (es, n3) = pemails(t5)->Some_0;
    let t6 = t5.skip(n3 as int);
    let t7 = t6.skip(k_active().len() as int);
    let (b, n4) = pbool(t7)->Some_0;
    let t8 = t7.skip(n4 as int);
    let t9 = t8.skip(k_date().len() as int);
    let (od, n5) = pdate_end(t9)->Some_0;
    lemma_precord_structure(s);
    lemma_pstr_sound(t1);
    lemma_precord_mid_sound(s);
    assert(r.inv());
    let back = (n3 + k_active().len() + n4 + k_date().len() + n5) as int;
    let w5 = remails(es) + (k_active() + (rbool(b) + (k_date() + rdate_end(od))));
    let w3 = (esc(m) + seq!['"']) + (k_emails() + w5);
    let w2 = k_msg() + w3;
    let w1 = (esc(d) + seq!['"']) + w2;
    assert(t2.take(k_msg().len() + n2 + k_emails().len() + back) == w2) by {
        lemma_take_split(t2, k_msg().len() as int, n2 + k_emails().len() + back);
        assert(t2.take(k_msg().len() as int) == k_msg());
    }
    assert(t1.take(n1 + k_msg().len() + n2 + k_emails().len() + back) == w1) by {
        lemma_take_split(t1, n1 as int, k_msg().len() + n2 + k_emails().len() + back);
        assert(t1.take(n1 as int) == esc(d) + seq!['"']);
    }
    assert(s.take(n as int) == k_desc() + w1) by {
        lemma_take_split(s, k_desc().len() as int, n1 + k_msg().len() + n2 + k_emails().len()
            + back);
        assert(s.take(k_desc().len() as int) == k_desc());
    }
    lemma_rrecord_assoc(r);
}

/// What a non-empty record-list parse consumed is exactly the list's
/// rendering, record invariants included.
#[verifier::rlimit(100)]
#[verifier::spinoff_prover]
proof fn lemma_precords_items_sound(s: Seq<char>)
    requires
        precords_items(s) is Some,
    ensures
        ({
            let (rs, m) = precords_items(s)->Some_0;
            rs.len() >= 1 && m <= s.len() && s.take(m as int) == rrecord(rs[0]) + rrecords_rest(
                rs.skip(1),
            ) && (forall|i: int| 0 <= i < rs.len() ==> (#[trigger] rs[i]).inv())
        }),
    decreases s.len(),
{
    let (rs, m) = precords_items(s)->Some_0;
    let (r, n) = precord(s)->Some_0;
    lemma_precord_sound(s);
    if s[n as int] == ',' {
        let (rs2, m2) = precords_items(s.skip(n + 1 as int))->Some_0;
        lemma_precords_items_sound(s.skip(n + 1 as int));
        assert((seq![r] + rs2)[0] == r);
        assert((seq![r] + rs2).skip(1) =~= rs2);
        assert forall|i: int| 0 <= i < rs.len() implies (#[trigger] rs[i]).inv() by {
            if i >= 1 {
                assert(rs[i] == rs2[i - 1]);
            }
        }
        assert(s.take(m as int) == rrecord(r) + rrecords_rest(rs2)) by {
            lemma_take_split(s, n as int, (1 + m2) as int);
            lemma_take_split(s.skip(n as int), 1, m2 as int);
            lemma_skip_skip(s, n as int, 1);
            assert(s.skip(n as int).take(1) =~= seq![',']);
            assert(rrecords_rest(rs2) == seq![','] + rrecord(rs2[0]) + rrecords_rest(rs2.skip(1)));
            assert(seq![','] + (rrecord(rs2[0]) + rrecords_rest(rs2.skip(1))) =~= rrecords_rest(
                rs2,
            ));
            assert(rrecord(r) + (seq![','] + (rrecord(rs2[0]) + rrecords_rest(rs2.skip(1))))
                =~= rrecord(r) + rrecords_rest(rs2));
        }
    } else {
        assert((seq![r])[0] == r);
        assert((seq![r]).skip(1) =~= Seq::<IceV>::empty());
        assert(rrecords_rest(Seq::<IceV>::empty()) == seq![']']);
        assert(s.take(m as int) == rrecord(r) + seq![']']) by {
            lemma_take_split(s, n as int, 1);
            assert(s.skip(n as int).take(1) =~= seq![']']);
        }
    }
}

/// Accepted content is canonical: any text the collection parser accepts is
/// byte for byte the rendering of the collection it yields, whose records
/// all satisfy the armed/scheduled invariant. With the round trip this makes
/// a save after a load reproduce any loadable file exactly.
pub proof fn lemma_pfile_sound(s: Seq<char>)
    requires
        pfile(s) is Some,
    ensures
        s == rrecords(pfile(s)->Some_0),
        forall|i: int| 0 <= i < pfile(s)->Some_0.len() ==> (#[trigger] pfile(s)->Some_0[i]).inv(),
{
    let rs = pfile(s)->Some_0;
    if s.len() == 2 && s[1] == ']' {
        assert(s =~= seq!['[', ']']);
        assert(rrecords(rs) =~= seq!['[', ']']);
    } else {
        let (rs2, n) = precords_items(s.skip(1))->Some_0;
        lemma_precords_items_sound(s.skip(1));
        assert(s.skip(1).take(n as int) =~= s.skip(1));
        assert(s =~= seq!['['] + s.skip(1));
        assert(seq!['['] + (rrecord(rs2[0]) + rrecords_rest(rs2.skip(1))) =~= rrecords(rs2));
    }
}

// ---------------------------------------------------------------------------
// The renderer
// ---------------------------------------------------------------------------

/// Appends one character in its escaped form.
fn esc_char_push(out: &mut Vec<char>, c: char)
    ensures
        final(out)@ == old(out)@ + esc_char(c),
{
    if c == '"' {
        out.push('\\');
        out.push('"');
    } else if c == '\\' {
        out.push('\\');
        out.push('\\');
    } else if c == '\n' {
        out.push('\\');
        out.push('n');
    } else if c == '\t' {
        out.push('\\');
        out.push('t');
    } else if c == '\r' {
        out.push('\\');
        out.push('r');
    } else {
        out.push(c);
    }
    proof {
        assert(out@ =~= old(out)@ + esc_char(c));
    }
}

/// Appends a whole string value in escaped form.
fn esc_into(out: &mut Vec<char>, src: &Vec<char>)
    ensures
        final(out)@ == old(out)@ + esc(src@),
{
    proof {
        assert(src@.skip(0) =~= src@);
    }
    let mut i: usize = 0;
    while i < src.len()
        invariant
            i <= src@.len(),
            out@ + esc(src@.skip(i as int)) == old(out)@ + esc(src@),
        decreases src@.len() - i,
    {
        let ghost pre = out@;
        let c = src[i];
        esc_char_push(out, c);
        proof {
            lemma_skip_skip(src@, i as int, 1);
            assert(src@.skip(i as int)[0] == c);
            assert(esc(src@.skip(i as int)) == esc_char(c) + esc(src@.skip(i + 1)));
            lemma_add_assoc(pre, esc_char(c), esc(src@.skip(i + 1)));
        }
        i += 1;
    }
    proof {
        assert(src@.skip(src@.len() as int) =~= Seq::<char>::empty());
        assert(out@ + Seq::<char>::empty() =~= out@);
    }
}

/// Appends the characters of a fixed piece of text.
fn lit_into(out: &mut Vec<char>, s: &str)
    ensures
        final(out)@ == old(out)@ + s@,
{
    let v = chars_of_str(s);
    append_chars(out, &v);
}

/// Appends a quoted, escaped string value.
fn qstring_into(out: &mut Vec<char>, s: &String)
    ensures
        final(out)@ == old(out)@ + rqstring(s@),
{
    let ghost pre = out@;
    out.push('"');
    let sc = chars_of_str(s.as_str());
    esc_into(out, &sc);
    out.push('"');
    proof {
        assert(out@ =~= pre + rqstring(s@));
    }
}

/// Appends the schedule value and the record's closing brace.
fn date_end_into(out: &mut Vec<char>, od: &Option<Stamp>)
    requires
        od is Some ==> od->Some_0.wf(),
    ensures
        final(out)@ == old(out)@ + rdate_end(*od),
{
    let ghost pre = out@;
    match od {
        None => {
            out.push('n');
            out.push('u');
            out.push('l');
            out.push('l');
            out.push('}');
            proof {
                assert(out@ =~= pre + rdate_end(None::<Stamp>));
            }
        },
        Some(st) => {
            out.push('"');
            let f = st.format();
            let fc = chars_of_str(f.as_str());
            append_chars(out, &fc);
            out.push('"');
            out.push('}');
            proof {
                assert(out@ =~= pre + rdate_end(Some(*st)));
            }
        },
    }
}

/// Appends the armed flag.
fn bool_into(out: &mut Vec<char>, b: bool)
    ensures
        final(out)@ == old(out)@ + rbool(b),
{
    let ghost pre = out@;
    if b {
        out.push('t');
        out.push('r');
        out.push('u');
        out.push('e');
    } else {
        out.push('f');
        out.push('a');
        out.push('l');
        out.push('s');
        out.push('e');
    }
    proof {
        assert(out@ =~= pre + rbool(b));
    }
}

/// Appends the recipient array after its opening bracket.
fn emails_into(out: &mut Vec<char>, emails: &Vec<String>)
    ensures
        final(out)@ == old(out)@ + remails(emails.deep_view()),
{
    let ghost es = emails.deep_view();
    if emails.len() == 0 {
        out.push(']');
        proof {
            assert(out@ =~= old(out)@ + remails(es));
        }
        return ;
    }
    let ghost pre = out@;
    qstring_into(out, &emails[0]);
    proof {
        assert(es[0] == emails@[0]@);
        lemma_add_assoc(pre, rqstring(es[0]), remails_rest(es.skip(1)));
    }
    let mut i: usize = 1;
    while i < emails.len()
        invariant
            1 <= i <= es.len(),
            es == emails.deep_view(),
            es.len() == emails@.len(),
            out@ + remails_rest(es.skip(i as int)) == old(out)@ + remails(es),
        decreases es.len() - i,
    {
        let ghost mid = out@;
        out.push(',');
        qstring_into(out, &emails[i]);
        proof {
            lemma_skip_skip(es, i as int, 1);
            assert(es.skip(i as int)[0] == es[i as int]);
            assert(es[i as int] == emails@[i as int]@);
            assert(remails_rest(es.skip(i as int)) == seq![','] + rqstring(es[i as int])
                + remails_rest(es.skip(i + 1)));
            assert(out@ + remails_rest(es.skip(i + 1)) =~= mid + remails_rest(es.skip(i as int)));
        }
        i += 1;
    }
    proof {
        assert(es.skip(es.len() as int) =~= Seq::<Seq<char>>::empty());
        assert(remails_rest(Seq::<Seq<char>>::empty()) == seq![']']);
    }
    out.push(']');
    proof {
        assert(out@ =~= old(out)@ + remails(es));
    }
}

/// Appends one whole record object.
fn record_into(out: &mut Vec<char>, ice: &Ice)
    requires
        ice@.inv(),
    ensures
        final(out)@ == old(out)@ + rrecord(ice@),
{
    let ghost pre = out@;
    lit_into(out, "{\"description\":\"");
    proof {
        reveal_strlit("{\"description\":\"");
        assert("{\"description\":\""@ =~= k_desc());
    }
    let d = ice.get_description();
    let dc = chars_of_str(d.as_str());
    esc_into(out, &dc);
    out.push('"');
    lit_into(out, ",\"message\":\"");
    proof {
        reveal_strlit(",\"message\":\"");
        assert(",\"message\":\""@ =~= k_msg());
    }
    let m = ice.get_message();
    let mc = chars_of_str(m.as_str());
    esc_into(out, &mc);
    out.push('"');
    lit_into(out, ",\"emails\":[");
    proof {
        reveal_strlit(",\"emails\":[");
        assert(",\"emails\":["@ =~= k_emails());
    }
    emails_into(out, ice.get_emails());
    lit_into(out, ",\"active\":");
    proof {
        reveal_strlit(",\"active\":");
        assert(",\"active\":"@ =~= k_active());
    }
    bool_into(out, ice.get_status());
    lit_into(out, ",\"send_date\":");
    proof {
        reveal_strlit(",\"send_date\":");
        assert(",\"send_date\":"@ =~= k_date());
    }
    let od = ice.get_send_date();
    date_end_into(out, &od);
    proof {
        reveal(rrecord);
        assert(out@ =~= pre + rrecord(ice@));
    }
}

/// Renders a whole collection in the store's canonical format.
pub fn render_ices(ices: &Vec<Ice>) -> (r: String)
    requires
        forall|i: int| #![auto] 0 <= i < ices@.len() ==> ices@[i]@.inv(),
    ensures
        r@ == rrecords(ices.deep_view()),
{
    let ghost rs = ices.deep_view();
    let mut out: Vec<char> = Vec::new();
    out.push('[');
    if ices.len() == 0 {
        out.push(']');
        proof {
            assert(out@ =~= rrecords(rs));
        }
        return string_of_chars(&out);
    }
    let ghost pre = out@;
    record_into(&mut out, &ices[0]);
    proof {
        assert(rs[0] == ices@[0]@);
        lemma_add_assoc(pre, rrecord(rs[0]), rrecords_rest(rs.skip(1)));
        assert(pre + (rrecord(rs[0]) + rrecords_rest(rs.skip(1))) =~= rrecords(rs));
    }
    let mut i: usize = 1;
    while i < ices.len()
        invariant
            1 <= i <= rs.len(),
            rs == ices.deep_view(),
            rs.len() == ices@.len(),
            forall|k: int| #![auto] 0 <= k < ices@.len() ==> ices@[k]@.inv(),
            out@ + rrecords_rest(rs.skip(i as int)) == rrecords(rs),
        decreases rs.len() - i,
    {
        let ghost mid = out@;
        out.push(',');
        record_into(&mut out, &ices[i]);
        proof {
            lemma_skip_skip(rs, i as int, 1);
            assert(rs.skip(i as int)[0] == rs[i as int]);
            assert(rs[i as int] == ices@[i as int]@);
            assert(rrecords_rest(rs.skip(i as int)) == seq![','] + rrecord(rs[i as int])
                + rrecords_rest(rs.skip(i + 1)));
            assert(out@ + rrecords_rest(rs.skip(i + 1)) =~= mid + rrecords_rest(rs.skip(i as int)));
        }
        i += 1;
    }
    proof {
        assert(rs.skip(rs.len() as int) =~= Seq::<IceV>::empty());
        assert(rrecords_rest(Seq::<IceV>::empty()) == seq![']']);
    }
    out.push(']');
    proof {
        assert(out@ =~= rrecords(rs));
    }
    string_of_chars(&out)
}

// ---------------------------------------------------------------------------
// The parser
// ---------------------------------------------------------------------------

/// Runtime form of `unesc_char`.
fn unesc_exec(c: char) -> (r: Option<char>)
    ensures
        r == unesc_char(c),
{
    if c == '"' {
        Some('"')
    } else if c == '\\' {
        Some('\\')
    } else if c == 'n' {
        Some('\n')
    } else if c == 't' {
        Some('\t')
    } else if c == 'r' {
        Some('\r')
    } else {
        None
    }
}

/// Checks that the text at `i` starts with `lit`, and steps over it.
fn xlit(cs: &Vec<char>, i: usize, lit: &Vec<char>) -> (r: Option<usize>)
    requires
        i <= cs@.len(),
    ensures
        match r {
            Some(j) => j == i + lit@.len() && j <= cs@.len() && has_prefix(
                cs@.skip(i as int),
                lit@,
            ),
            None => !has_prefix(cs@.skip(i as int), lit@),
        },
{
    let total: usize = cs.len();
    if total - i < lit.len() {
        return None;
    }
    let mut k: usize = 0;
    while k < lit.len()
        invariant
            k <= lit@.len(),
            i + lit@.len() <= total,
            total == cs@.len(),
            forall|t: int| 0 <= t < k ==> cs@[i + t] == lit@[t],
        decreases lit@.len() - k,
    {
        if cs[i + k] != lit[k] {
            proof {
                if has_prefix(cs@.skip(i as int), lit@) {
                    assert(cs@.skip(i as int).take(lit@.len() as int)[k as int] == lit@[k as int]);
                    assert(cs@.skip(i as int)[k as int] == cs@[i + k]);
                }
            }
            return None;
        }
        k += 1;
    }
    proof {
        assert(cs@.skip(i as int).take(lit@.len() as int) =~= lit@);
    }
    Some(i + lit.len())
}

/// Parses a string value after its opening quote, mirroring `pstr_body`.
fn xstr_body(cs: &Vec<char>, i: usize) -> (r: Option<(Vec<char>, usize)>)
    requires
        i <= cs@.len(),
    ensures
        match r {
            Some((v, j)) => i < j <= cs@.len() && pstr_body(cs@.skip(i as int)) == Some(
                (v@, (j - i) as nat),
            ),
            None => pstr_body(cs@.skip(i as int)) is None,
        },
{
    proof {
        if pstr_body(cs@.skip(i as int)) is Some {
            let (t0, n0) = pstr_body(cs@.skip(i as int))->Some_0;
            assert(Seq::<char>::empty() + t0 =~= t0);
        }
    }
    let mut j: usize = i;
    let mut out: Vec<char> = Vec::new();
    loop
        invariant
            i <= j <= cs@.len(),
            (match pstr_body(cs@.skip(j as int)) {
                Some((t, n)) => pstr_body(cs@.skip(i as int)) == Some(
                    (out@ + t, ((j - i) + n) as nat),
                ),
                None => pstr_body(cs@.skip(i as int)) is None,
            }),
        decreases cs@.len() - j,
    {
        if j == cs.len() {
            proof {
                assert(cs@.skip(j as int) =~= Seq::<char>::empty());
            }
            return None;
        }
        let c = cs[j];
        proof {
            assert(cs@.skip(j as int)[0] == cs@[j as int]);
        }
        if c == '"' {
            proof {
                assert(pstr_body(cs@.skip(j as int)) == Some((Seq::<char>::empty(), 1nat)));
                assert(out@ + Seq::<char>::empty() =~= out@);
            }
            return Some((out, j + 1));
        } else if c == '\\' {
            if j + 1 == cs.len() {
                proof {
                    assert(cs@.skip(j as int).len() == 1);
                }
                return None;
            }
            let e = cs[j + 1];
            proof {
                assert(cs@.skip(j as int)[1] == cs@[j + 1]);
            }
            match unesc_exec(e) {
                None => {
                    return None;
                },
                Some(u) => {
                    let ghost pre = out@;
                    out.push(u);
                    proof {
                        lemma_skip_skip(cs@, j as int, 2);
                        if pstr_body(cs@.skip(j + 2)) is Some {
                            let (t2, n2) = pstr_body(cs@.skip(j + 2))->Some_0;
                            assert((pre + seq![u]) + t2 =~= pre + (seq![u] + t2));
                            assert(out@ =~= pre + seq![u]);
                        }
                    }
                    j += 2;
                },
            }
        } else if c == '\n' || c == '\t' || c == '\r' {
            return None;
        } else {
            let ghost pre = out@;
            out.push(c);
            proof {
                lemma_skip_skip(cs@, j as int, 1);
                if pstr_body(cs@.skip(j + 1)) is Some {
                    let (t2, n2) = pstr_body(cs@.skip(j + 1))->Some_0;
                    assert((pre + seq![c]) + t2 =~= pre + (seq![c] + t2));
                    assert(out@ =~= pre + seq![c]);
                }
            }
            j += 1;
        }
    }
}

/// Parses a recipient array after its opening bracket, mirroring `pemails`.
fn xemails(cs: &Vec<char>, i: usize) -> (r: Option<(Vec<String>, usize)>)
    requires
        i <= cs@.len(),
    ensures
        match r {
            Some((v, j)) => i < j <= cs@.len() && pemails(cs@.skip(i as int)) == Some(
                (v.deep_view(), (j - i) as nat),
            ),
            None => pemails(cs@.skip(i as int)) is None,
        },
{
    if i < cs.len() && cs[i] == ']' {
        let v: Vec<String> = Vec::new();
        proof {
            assert(cs@.skip(i as int)[0] == ']');
            assert(v.deep_view() =~= Seq::<Seq<char>>::empty());
        }
        return Some((v, i + 1));
    }
    proof {
        if i < cs@.len() {
            assert(cs@.skip(i as int)[0] == cs@[i as int]);
        } else {
            assert(cs@.skip(i as int).len() == 0);
        }
        assert(pemails(cs@.skip(i as int)) == pemails_items(cs@.skip(i as int)));
        if pemails_items(cs@.skip(i as int)) is Some {
            let (es0, m0) = pemails_items(cs@.skip(i as int))->Some_0;
            assert(Seq::<Seq<char>>::empty() + es0 =~= es0);
        }
    }
    let mut j: usize = i;
    let mut acc: Vec<String> = Vec::new();
    proof {
        assert(acc.deep_view() =~= Seq::<Seq<char>>::empty());
    }
    loop
        invariant
            i <= j <= cs@.len(),
            (match pemails_items(cs@.skip(j as int)) {
                Some((es, m)) => pemails_items(cs@.skip(i as int)) == Some(
                    (acc.deep_view() + es, ((j - i) + m) as nat),
                ),
                None => pemails_items(cs@.skip(i as int)) is None,
            }),
            pemails(cs@.skip(i as int)) == pemails_items(cs@.skip(i as int)),
        decreases cs@.len() - j,
    {
        if j == cs.len() {
            proof {
                assert(cs@.skip(j as int).len() == 0);
            }
            return None;
        }
        let c0 = cs[j];
        proof {
            assert(cs@.skip(j as int)[0] == cs@[j as int]);
        }
        if c0 != '"' {
            return None;
        }
        match xstr_body(cs, j + 1) {
            None => {
                proof {
                    lemma_skip_skip(cs@, j as int, 1);
                }
                return None;
            },
            Some((e, j2)) => {
                proof {
                    lemma_skip_skip(cs@, j as int, 1);
                }
                if j2 == cs.len() {
                    proof {
                        assert(cs@.skip(j as int).len() == cs@.len() - j);
                    }
                    return None;
                }
                let c = cs[j2];
                proof {
                    assert(cs@.skip(j as int)[j2 - j] == cs@[j2 as int]);
                }
                let es = string_of_chars(&e);
                let ghost accpre = acc.deep_view();
                acc.push(es);
                proof {
                    assert(acc.deep_view() =~= accpre + seq![e@]);
                }
                if c == ',' {
                    proof {
                        lemma_skip_skip(cs@, j as int, j2 + 1 - j);
                        if pemails_items(cs@.skip(j2 + 1)) is Some {
                            let (es2, m2) = pemails_items(cs@.skip(j2 + 1))->Some_0;
                            assert((accpre + seq![e@]) + es2 =~= accpre + (seq![e@] + es2));
                        }
                    }
                    j = j2 + 1;
                } else if c == ']' {
                    proof {
                        assert(pemails_items(cs@.skip(j as int)) == Some(
                            (seq![e@], (j2 + 1 - j) as nat),
                        ));
                        assert(accpre + seq![e@] =~= acc.deep_view());
                    }
                    return Some((acc, j2 + 1));
                } else {
                    return None;
                }
            },
        }
    }
}

/// Parses the armed flag, mirroring `pbool`.
fn xbool(cs: &Vec<char>, i: usize) -> (r: Option<(bool, usize)>)
    requires
        i <= cs@.len(),
    ensures
        match r {
            Some((b, j)) => i < j <= cs@.len() && pbool(cs@.skip(i as int)) == Some(
                (b, (j - i) as nat),
            ),
            None => pbool(cs@.skip(i as int)) is None,
        },
{
    let tlit = chars_of_str("true");
    proof {
        reveal_strlit("true");
        assert(tlit@ =~= rbool(true));
    }
    match xlit(cs, i, &tlit) {
        Some(j) => Some((true, j)),
        None => {
            let flit = chars_of_str("false");
            proof {
                reveal_strlit("false");
                assert(flit@ =~= rbool(false));
            }
            match xlit(cs, i, &flit) {
                Some(j) => Some((false, j)),
                None => None,
            }
        },
    }
}

/// Parses the schedule value and the closing brace, mirroring `pdate_end`.
fn xdate_end(cs: &Vec<char>, i: usize) -> (r: Option<(Option<Stamp>, usize)>)
    requires
        i <= cs@.len(),
    ensures
        match r {
            Some((od, j)) => i < j <= cs@.len() && pdate_end(cs@.skip(i as int)) == Some(
                (od, (j - i) as nat),
            ) && (od is Some ==> od->Some_0.wf()),
            None => pdate_end(cs@.skip(i as int)) is None,
        },
{
    let nul = chars_of_str("null}");
    proof {
        reveal_strlit("null}");
        assert(nul@ =~= seq!['n', 'u', 'l', 'l', '}']);
    }
    match xlit(cs, i, &nul) {
        Some(j) => Some((None, j)),
        None => {
            let ghost s = cs@.skip(i as int);
            if cs.len() - i < 19 {
                return None;
            }
            if cs[i] != '"' {
                proof {
                    assert(s[0] == cs@[i as int]);
                }
                return None;
            }
            proof {
                assert(s[0] == '"');
                assert(s.subrange(1, 17) =~= cs@.subrange(i + 1, i + 17));
            }
            match xstamp16(cs, i + 1) {
                None => {
                    return None;
                },
                Some(st) => {
                    if cs[i + 17] != '"' {
                        proof {
                            assert(s[17] == cs@[i + 17]);
                        }
                        return None;
                    }
                    if cs[i + 18] != '}' {
                        proof {
                            assert(s[18] == cs@[i + 18]);
                        }
                        return None;
                    }
                    proof {
                        assert(s[17] == '"' && s[18] == '}');
                        crate::stamp::lemma_pstamp_sound(s.subrange(1, 17));
                    }
                    Some((Some(st), i + 19))
                },
            }
        },
    }
}

/// Parses one record object, mirroring `precord`.
#[verifier::rlimit(100)]
#[verifier::spinoff_prover]
fn xrecord(cs: &Vec<char>, i: usize) -> (r: Option<(Ice, usize)>)
    requires
        i <= cs@.len(),
    ensures
        match r {
            Some((ice, j)) => i < j <= cs@.len() && precord(cs@.skip(i as int)) == Some(
                (ice@, (j - i) as nat),
            ) && ice@.inv(),
            None => precord(cs@.skip(i as int)) is None,
        },
{
    let ghost s = cs@.skip(i as int);
    let kd = chars_of_str("{\"description\":\"");
    proof {
        reveal_strlit("{\"description\":\"");
        assert(kd@ =~= k_desc());
    }
    let j1 = match xlit(cs, i, &kd) {
        None => {
            proof {
                assert(precord(s) is None) by {
                    reveal(precord);
                }
            }
            return None;
        },
        Some(j) => j,
    };
    proof {
        lemma_skip_skip(cs@, i as int, 16);
        assert(s.skip(16) == cs@.skip(j1 as int));
    }
    let (dv, j2) = match xstr_body(cs, j1) {
        None => {
            proof {
                assert(precord(s) is None) by {
                    reveal(precord);
                }
            }
            return None;
        },
        Some(p) => p,
    };
    proof {
        lemma_skip_skip(cs@, j1 as int, j2 - j1);
    }
    let km = chars_of_str(",\"message\":\"");
    proof {
        reveal_strlit(",\"message\":\"");
        assert(km@ =~= k_msg());
    }
    let j3 = match xlit(cs, j2, &km) {
        None => {
            proof {
                assert(precord(s) is None) by {
                    reveal(precord);
                }
            }
            return None;
        },
        Some(j) => j,
    };
    proof {
        lemma_skip_skip(cs@, j2 as int, 12);
    }
    let (mv, j4) = match xstr_body(cs, j3) {
        None => {
            proof {
                assert(precord(s) is None) by {
                    reveal(precord);
                }
            }
            return None;
        },
        Some(p) => p,
    };
    proof {
        lemma_skip_skip(cs@, j3 as int, j4 - j3);
    }
    let ke = chars_of_str(",\"emails\":[");
    proof {
        reveal_strlit(",\"emails\":[");
        assert(ke@ =~= k_emails());
    }
    let j5 = match xlit(cs, j4, &ke) {
        None => {
            proof {
                assert(precord(s) is None) by {
                    reveal(precord);
                }
            }
            return None;
        },
        Some(j) => j,
    };
    proof {
        lemma_skip_skip(cs@, j4 as int, 11);
    }
    let (ev, j6) = match xemails(cs, j5) {
        None => {
            proof {
                assert(precord(s) is None) by {
                    reveal(precord);
                }
            }
            return None;
        },
        Some(p) => p,
    };
    proof {
        lemma_skip_skip(cs@, j5 as int, j6 - j5);
    }
    let ka = chars_of_str(",\"active\":");
    proof {
        reveal_strlit(",\"active\":");
        assert(ka@ =~= k_active());
    }
    let j7 = match xlit(cs, j6, &ka) {
        None => {
            proof {
                assert(precord(s) is None) by {
                    reveal(precord);
                }
            }
            return None;
        },
        Some(j) => j,
    };
    proof {
        lemma_skip_skip(cs@, j6 as int, 10);
    }
    let (b, j8) = match xbool(cs, j7) {
        None => {
            proof {
                assert(precord(s) is None) by {
                    reveal(precord);
                }
            }
            return None;
        },
        Some(p) => p,
    };
    proof {
        lemma_skip_skip(cs@, j7 as int, j8 - j7);
    }
    let kt = chars_of_str(",\"send_date\":");
    proof {
        reveal_strlit(",\"send_date\":");
        assert(kt@ =~= k_date());
    }
    let j9 = match xlit(cs, j8, &kt) {
        None => {
            proof {
                assert(precord(s) is None) by {
                    reveal(precord);
                }
            }
            return None;
        },
        Some(j) => j,
    };
    proof {
        lemma_skip_skip(cs@, j8 as int, 13);
    }
    let (od, j10) = match xdate_end(cs, j9) {
        None => {
            proof {
                assert(precord(s) is None) by {
                    reveal(precord);
                }
            }
            return None;
        },
        Some(p) => p,
    };
    let active_matches: bool = b == od.is_some();
    if !active_matches {
        proof {
            assert(precord(s) is None) by {
                reveal(precord);
            }
        }
        return None;
    }
    let d = string_of_chars(&dv);
    let m = string_of_chars(&mv);
    let ice = Ice::assemble(d, m, ev, b, od);
    proof {
        assert(precord(s) == Some((ice@, (j10 - i) as nat))) by {
            reveal(precord);
        }
    }
    Some((ice, j10))
}

/// Parses a non-empty record list, mirroring `precords_items`.
fn xrecords_items(cs: &Vec<char>, i: usize) -> (r: Option<(Vec<Ice>, usize)>)
    requires
        i <= cs@.len(),
    ensures
        match r {
            Some((v, j)) => i < j <= cs@.len() && precords_items(cs@.skip(i as int)) == Some(
                (v.deep_view(), (j - i) as nat),
            ) && (forall|k: int| #![auto] 0 <= k < v@.len() ==> v@[k]@.inv()),
            None => precords_items(cs@.skip(i as int)) is None,
        },
{
    proof {
        if precords_items(cs@.skip(i as int)) is Some {
            let (rs0, m0) = precords_items(cs@.skip(i as int))->Some_0;
            assert(Seq::<IceV>::empty() + rs0 =~= rs0);
        }
    }
    let mut j: usize = i;
    let mut acc: Vec<Ice> = Vec::new();
    proof {
        assert(acc.deep_view() =~= Seq::<IceV>::empty());
    }
    loop
        invariant
            i <= j <= cs@.len(),
            (match precords_items(cs@.skip(j as int)) {
                Some((rs, m)) => precords_items(cs@.skip(i as int)) == Some(
                    (acc.deep_view() + rs, ((j - i) + m) as nat),
                ),
                None => precords_items(cs@.skip(i as int)) is None,
            }),
            forall|k: int| #![auto] 0 <= k < acc@.len() ==> acc@[k]@.inv(),
        decreases cs@.len() - j,
    {
        match xrecord(cs, j) {
            None => {
                return None;
            },
            Some((ice, j2)) => {
                if j2 == cs.len() {
                    proof {
                        assert(cs@.skip(j as int).len() == cs@.len() - j);
                    }
                    return None;
                }
                let c = cs[j2];
                proof {
                    assert(cs@.skip(j as int)[j2 - j] == cs@[j2 as int]);
                }
                let ghost accpre = acc.deep_view();
                acc.push(ice);
                proof {
                    assert(acc.deep_view() =~= accpre + seq![ice@]);
                }
                if c == ',' {
                    proof {
                        lemma_skip_skip(cs@, j as int, j2 + 1 - j);
                        if precords_items(cs@.skip(j2 + 1)) is Some {
                            let (rs2, m2) = precords_items(cs@.skip(j2 + 1))->Some_0;
                            assert((accpre + seq![ice@]) + rs2 =~= accpre + (seq![ice@] + rs2));
                        }
                    }
                    j = j2 + 1;
                } else if c == ']' {
                    proof {
                        assert(precords_items(cs@.skip(j as int)) == Some(
                            (seq![ice@], (j2 + 1 - j) as nat),
                        ));
                        assert(accpre + seq![ice@] =~= acc.deep_view());
                    }
                    return Some((acc, j2 + 1));
                } else {
                    return None;
                }
            },
        }
    }
}

/// Parses a whole persisted collection: succeeds exactly on the canonical
/// rendering of some record sequence (`pfile`), yielding records that all
/// satisfy the armed/scheduled invariant; anything else is `Corrupt`.
pub fn parse_ices(content: &str) -> (r: Result<Vec<Ice>, StoreError>)
    ensures
        match r {
            Ok(v) => pfile(content@) == Some(v.deep_view()) && content@ == rrecords(v.deep_view())
                && (forall|k: int| #![auto] 0 <= k < v@.len() ==> v@[k]@.inv()),
            Err(e) => e == StoreError::Corrupt && pfile(content@) is None,
        },
{
    proof {
        if pfile(content@) is Some {
            lemma_pfile_sound(content@);
        }
    }
    let cs = chars_of_str(content);
    if cs.len() < 2 {
        return Err(StoreError::Corrupt);
    }
    if cs[0] != '[' {
        return Err(StoreError::Corrupt);
    }
    if cs.len() == 2 {
        if cs[1] == ']' {
            let v: Vec<Ice> = Vec::new();
            proof {
                assert(v.deep_view() =~= Seq::<IceV>::empty());
            }
            return Ok(v);
        } else {
            proof {
                assert(cs@.skip(1)[0] == cs@[1]);
                reveal(precord);
                assert(!has_prefix(cs@.skip(1), k_desc())) by {
                    if has_prefix(cs@.skip(1), k_desc()) {
                        assert(cs@.skip(1).take(16)[0] == cs@.skip(1)[0]);
                    }
                }
            }
            return Err(StoreError::Corrupt);
        }
    }
    match xrecords_items(&cs, 1) {
        None => Err(StoreError::Corrupt),
        Some((v, j)) => {
            if j == cs.len() {
                Ok(v)
            } else {
                Err(StoreError::Corrupt)
            }
        },
    }
}

} // verus!
