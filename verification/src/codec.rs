//! The textual on-disk form of a task collection.
//!
//! A collection is written as one array of records, each record a
//! brace-delimited object with the five task fields in a fixed order,
//! ids and timestamps as plain decimals, the description and the
//! status tag as quoted strings with `"` and `\` escaped.  The parser
//! accepts exactly this form; anything else is corrupt.

use crate::models::{Status, StoreError, Task, TaskView, wf_tasks};
use crate::task_manager::views_of;
use vstd::arithmetic::div_mod::lemma_fundamental_div_mod;
use vstd::prelude::*;

verus! {

// ---------------------------------------------------------------
// Decimal digits and numbers
// ---------------------------------------------------------------
/// Whether a character is a decimal digit.
pub open spec fn is_dec_digit(c: char) -> bool {
    48 <= c as u32 <= 57
}

/// The numeric value of a digit character.
pub open spec fn digit_val(c: char) -> nat {
    (c as u32 - 48) as nat
}

/// The digit character of a value below ten.
pub open spec fn digit_char(d: nat) -> char {
    if d == 0 {
        '0'
    } else if d == 1 {
        '1'
    } else if d == 2 {
        '2'
    } else if d == 3 {
        '3'
    } else if d == 4 {
        '4'
    } else if d == 5 {
        '5'
    } else if d == 6 {
        '6'
    } else if d == 7 {
        '7'
    } else if d == 8 {
        '8'
    } else {
        '9'
    }
}

/// The decimal digits of a number, most significant first.
pub open spec fn spec_fmt_u64(n: nat) -> Seq<char>
    decreases n,
{
    if n < 10 {
        seq![digit_char(n)]
    } else {
        spec_fmt_u64(n / 10).push(digit_char(n % 10))
    }
}

/// The value a digit string denotes.
pub open spec fn spec_num_val(s: Seq<char>) -> nat
    decreases s.len(),
{
    if s.len() == 0 {
        0
    } else {
        spec_num_val(s.drop_last()) * 10 + digit_val(s.last())
    }
}

/// Whether every character of the string is a digit.
pub open spec fn all_digits(s: Seq<char>) -> bool {
    forall|i: int| 0 <= i < s.len() ==> is_dec_digit(#[trigger] s[i])
}

/// The length of the longest digit prefix of the string.
pub open spec fn digit_prefix_len(s: Seq<char>) -> nat
    decreases s.len(),
{
    if s.len() > 0 && is_dec_digit(s[0]) {
        1 + digit_prefix_len(s.drop_first())
    } else {
        0
    }
}

/// Reading a number off the front of the string: its maximal digit
/// prefix as a value, and the rest.  Nothing to read, or a value past
/// `u64::MAX`, is a failure.
pub open spec fn sp_num(s: Seq<char>) -> Option<(u64, Seq<char>)> {
    let k = digit_prefix_len(s);
    if k == 0 {
        None
    } else if spec_num_val(s.take(k as int)) > u64::MAX as nat {
        None
    } else {
        Some(((spec_num_val(s.take(k as int)) as u64), s.skip(k as int)))
    }
}

proof fn lemma_fmt_digits(n: nat)
    ensures
        spec_fmt_u64(n).len() >= 1,
        all_digits(spec_fmt_u64(n)),
    decreases n,
{
    if n >= 10 {
        lemma_fmt_digits(n / 10);
        let s = spec_fmt_u64(n / 10);
        let w = s.push(digit_char(n % 10));
        assert forall|i: int| 0 <= i < w.len() implies is_dec_digit(#[trigger] w[i]) by {
            if i < s.len() {
                assert(w[i] == s[i]);
            }
        }
    }
}

proof fn lemma_digit_round_trip(d: nat)
    requires
        d < 10,
    ensures
        digit_val(digit_char(d)) == d,
{
    if d == 0 {
        assert(digit_val('0') == 0);
    } else if d == 1 {
        assert(digit_val('1') == 1);
    } else if d == 2 {
        assert(digit_val('2') == 2);
    } else if d == 3 {
        assert(digit_val('3') == 3);
    } else if d == 4 {
        assert(digit_val('4') == 4);
    } else if d == 5 {
        assert(digit_val('5') == 5);
    } else if d == 6 {
        assert(digit_val('6') == 6);
    } else if d == 7 {
        assert(digit_val('7') == 7);
    } else if d == 8 {
        assert(digit_val('8') == 8);
    } else {
        assert(digit_val('9') == 9);
    }
}

proof fn lemma_num_val_fmt(n: nat)
    ensures
        spec_num_val(spec_fmt_u64(n)) == n,
    decreases n,
{
    if n < 10 {
        lemma_digit_round_trip(n);
        let s = spec_fmt_u64(n);
        assert(s.drop_last() =~= Seq::<char>::empty());
        assert(spec_num_val(s.drop_last()) == 0);
        assert(s.last() == digit_char(n));
    } else {
        lemma_num_val_fmt(n / 10);
        lemma_digit_round_trip(n % 10);
        let s = spec_fmt_u64(n / 10);
        let w = s.push(digit_char(n % 10));
        assert(spec_fmt_u64(n) == w);
        assert(w.drop_last() =~= s);
        assert(spec_num_val(w) == spec_num_val(s) * 10 + digit_val(digit_char(n % 10)));
        lemma_fundamental_div_mod(n as int, 10);
    }
}

/// The digit prefix of `a + b` is all of `a` when `a` is digits and
/// `b` does not begin with one.
proof fn lemma_digit_prefix_of_concat(a: Seq<char>, b: Seq<char>)
    requires
        all_digits(a),
        b.len() == 0 || !is_dec_digit(b[0]),
    ensures
        digit_prefix_len(a + b) == a.len(),
    decreases a.len(),
{
    if a.len() == 0 {
        assert(a + b =~= b);
    } else {
        assert((a + b)[0] == a[0]);
        assert((a + b).drop_first() =~= a.drop_first() + b);
        assert(all_digits(a.drop_first()));
        lemma_digit_prefix_of_concat(a.drop_first(), b);
    }
}

/// Reading a number back off a formatted one yields that number and
/// leaves the rest untouched, whenever the rest does not begin with a
/// digit.
proof fn lemma_sp_num_fmt(n: u64, rest: Seq<char>)
    requires
        rest.len() == 0 || !is_dec_digit(rest[0]),
    ensures
        sp_num(spec_fmt_u64(n as nat) + rest) == Some((n, rest)),
{
    let f = spec_fmt_u64(n as nat);
    lemma_fmt_digits(n as nat);
    lemma_digit_prefix_of_concat(f, rest);
    let s = f + rest;
    let k = digit_prefix_len(s);
    assert(k == f.len());
    assert(s.take(k as int) =~= f);
    lemma_num_val_fmt(n as nat);
    assert(s.skip(k as int) =~= rest);
}

// ---------------------------------------------------------------
// Quoted strings
// ---------------------------------------------------------------
/// How one character is written inside a quoted string.
pub open spec fn esc_char(c: char) -> Seq<char> {
    if c == '"' || c == '\\' {
        seq!['\\', c]
    } else {
        seq![c]
    }
}

/// How a text is written inside a quoted string.
pub open spec fn spec_esc(s: Seq<char>) -> Seq<char>
    decreases s.len(),
{
    if s.len() == 0 {
        Seq::<char>::empty()
    } else {
        esc_char(s[0]) + spec_esc(s.drop_first())
    }
}

proof fn lemma_esc_push(s: Seq<char>, c: char)
    ensures
        spec_esc(s.push(c)) == spec_esc(s) + esc_char(c),
    decreases s.len(),
{
    let w = s.push(c);
    if s.len() == 0 {
        assert(w.drop_first() =~= Seq::<char>::empty());
        assert(spec_esc(w.drop_first()) == Seq::<char>::empty());
        assert(w[0] == c);
        assert(spec_esc(w) == esc_char(c) + Seq::<char>::empty());
        assert(spec_esc(s) == Seq::<char>::empty());
        assert(spec_esc(w) =~= spec_esc(s) + esc_char(c));
    } else {
        assert(w[0] == s[0]);
        assert(w.drop_first() =~= s.drop_first().push(c));
        lemma_esc_push(s.drop_first(), c);
        assert(spec_esc(w) == esc_char(s[0]) + (spec_esc(s.drop_first()) + esc_char(c)));
        assert(spec_esc(s) == esc_char(s[0]) + spec_esc(s.drop_first()));
        assert(esc_char(s[0]) + (spec_esc(s.drop_first()) + esc_char(c)) =~= (esc_char(s[0])
            + spec_esc(s.drop_first())) + esc_char(c));
    }
}

/// Reading a quoted string off the front: everything up to the first
/// unescaped quote, unescaped; then the rest.  A missing closing quote
/// or an unknown escape is a failure.
pub open spec fn sp_str(s: Seq<char>) -> Option<(Seq<char>, Seq<char>)>
    decreases s.len(),
{
    if s.len() == 0 {
        None
    } else if s[0] == '"' {
        Some((Seq::<char>::empty(), s.drop_first()))
    } else if s[0] == '\\' {
        if s.len() >= 2 && (s[1] == '"' || s[1] == '\\') {
            match sp_str(s.skip(2)) {
                Some(p) => Some((seq![s[1]] + p.0, p.1)),
                None => None,
            }
        } else {
            None
        }
    } else {
        match sp_str(s.drop_first()) {
            Some(p) => Some((seq![s[0]] + p.0, p.1)),
            None => None,
        }
    }
}

/// Reading a quoted string back off an escaped one yields the original
/// text and the rest past the closing quote.
proof fn lemma_sp_str_esc(d: Seq<char>, rest: Seq<char>)
    ensures
        sp_str(spec_esc(d) + seq!['"'] + rest) == Some((d, rest)),
    decreases d.len(),
{
    let s = spec_esc(d) + seq!['"'] + rest;
    if d.len() == 0 {
        assert(s[0] == '"');
        assert(s.drop_first() =~= rest);
    } else {
        lemma_sp_str_esc(d.drop_first(), rest);
        let inner = spec_esc(d.drop_first()) + seq!['"'] + rest;
        if d[0] == '"' || d[0] == '\\' {
            assert(s =~= seq!['\\', d[0]] + inner);
            assert(s[0] == '\\');
            assert(s[1] == d[0]);
            assert(s.len() >= 2);
            assert(s.skip(2) =~= inner);
            assert(sp_str(s) == Some((seq![s[1]] + d.drop_first(), rest)));
            assert(seq![s[1]] + d.drop_first() =~= d);
        } else {
            assert(s =~= seq![d[0]] + inner);
            assert(s[0] == d[0]);
            assert(s[0] != '"' && s[0] != '\\');
            assert(s.drop_first() =~= inner);
            assert(sp_str(s) == Some((seq![s[0]] + d.drop_first(), rest)));
            assert(seq![s[0]] + d.drop_first() =~= d);
        }
    }
}

// ---------------------------------------------------------------
// Status tags
// ---------------------------------------------------------------
/// The literal tag a status serializes as.
pub open spec fn spec_tag(st: Status) -> Seq<char> {
    match st {
        Status::Todo => seq!['T', 'o', 'd', 'o'],
        Status::InProgress => seq!['I', 'n', 'P', 'r', 'o', 'g', 'r', 'e', 's', 's'],
        Status::Done => seq!['D', 'o', 'n', 'e'],
    }
}

/// The status a tag names, or `None` for an unknown tag.
pub open spec fn status_of_tag(t: Seq<char>) -> Option<Status> {
    if t == spec_tag(Status::Todo) {
        Some(Status::Todo)
    } else if t == spec_tag(Status::InProgress) {
        Some(Status::InProgress)
    } else if t == spec_tag(Status::Done) {
        Some(Status::Done)
    } else {
        None
    }
}

/// Escaping changes nothing in a text without quotes or backslashes.
proof fn lemma_esc_plain(s: Seq<char>)
    requires
        forall|i: int| 0 <= i < s.len() ==> (#[trigger] s[i]) != '"' && s[i] != '\\',
    ensures
        spec_esc(s) == s,
    decreases s.len(),
{
    if s.len() > 0 {
        lemma_esc_plain(s.drop_first());
        assert(esc_char(s[0]) =~= seq![s[0]]);
        assert(seq![s[0]] + s.drop_first() =~= s);
    }
}

proof fn lemma_tag_round_trip(st: Status)
    ensures
        status_of_tag(spec_tag(st)) == Some(st),
        spec_esc(spec_tag(st)) == spec_tag(st),
        forall|i: int| 0 <= i < spec_tag(st).len() ==> (#[trigger] spec_tag(st)[i]) != '"'
            && spec_tag(st)[i] != '\\',
{
    let t = spec_tag(st);
    assert forall|i: int| 0 <= i < t.len() implies (#[trigger] t[i]) != '"' && t[i] != '\\' by {
        match st {
            Status::Todo => {},
            Status::InProgress => {},
            Status::Done => {},
        }
    }
    lemma_esc_plain(t);
    match st {
        Status::Todo => {},
        Status::InProgress => {
            assert(spec_tag(Status::InProgress)[0] != spec_tag(Status::Todo)[0]);
        },
        Status::Done => {
            assert(spec_tag(Status::Done)[0] != spec_tag(Status::Todo)[0]);
            assert(spec_tag(Status::Done)[0] != spec_tag(Status::InProgress)[0]);
        },
    }
}

// ---------------------------------------------------------------
// Records
// ---------------------------------------------------------------
/// The opening of a record, through the id field's name.
pub open spec fn lit_obj() -> Seq<char> {
    seq!['{', '"', 'i', 'd', '"', ':']
}

/// The description field's name, with the opening quote of its value.
pub open spec fn lit_desc() -> Seq<char> {
    seq![',', '"', 'd', 'e', 's', 'c', 'r', 'i', 'p', 't', 'i', 'o', 'n', '"', ':', '"']
}

/// The status field's name, with the opening quote of its value.
pub open spec fn lit_status() -> Seq<char> {
    seq![',', '"', 's', 't', 'a', 't', 'u', 's', '"', ':', '"']
}

/// The creation timestamp field's name.
pub open spec fn lit_created() -> Seq<char> {
    seq![',', '"', 'c', 'r', 'e', 'a', 't', 'e', 'd', '_', 'a', 't', '"', ':']
}

/// The update timestamp field's name.
pub open spec fn lit_updated() -> Seq<char> {
    seq![',', '"', 'u', 'p', 'd', 'a', 't', 'e', 'd', '_', 'a', 't', '"', ':']
}

/// Whether `p` is what `s` begins with.
pub open spec fn starts_with(s: Seq<char>, p: Seq<char>) -> bool {
    p.len() <= s.len() && s.take(p.len() as int) == p
}

/// What `a + b` begins with, and what is past it.
proof fn lemma_split(a: Seq<char>, b: Seq<char>)
    ensures
        starts_with(a + b, a),
        (a + b).skip(a.len() as int) == b,
{
    assert((a + b).take(a.len() as int) =~= a);
    assert((a + b).skip(a.len() as int) =~= b);
}

/// Concatenation is associative.
proof fn lemma_assoc<T>(a: Seq<T>, b: Seq<T>, c: Seq<T>)
    ensures
        (a + b) + c == a + (b + c),
{
    assert((a + b) + c =~= a + (b + c));
}

/// One record's serialized form.
pub open spec fn spec_ser_task(t: TaskView) -> Seq<char> {
    lit_obj() + (spec_fmt_u64(t.id as nat) + (lit_desc() + (spec_esc(t.description) + (seq!['"']
        + (lit_status() + (spec_tag(t.status) + (seq!['"'] + (lit_created() + (spec_fmt_u64(
        t.created_at as nat,
    ) + (lit_updated() + (spec_fmt_u64(t.updated_at as nat) + seq!['}'])))))))))))
}

/// Reading one record off the front of the string.
pub open spec fn sp_record(s: Seq<char>) -> Option<(TaskView, Seq<char>)> {
    if !starts_with(s, lit_obj()) {
        None
    } else {
        let s1 = s.skip(lit_obj().len() as int);
        match sp_num(s1) {
            None => None,
            Some((id, s2)) => if id > u32::MAX as u64 || !starts_with(s2, lit_desc()) {
                None
            } else {
                let s3 = s2.skip(lit_desc().len() as int);
                match sp_str(s3) {
                    None => None,
                    Some((desc, s4)) => if !starts_with(s4, lit_status()) {
                        None
                    } else {
                        let s5 = s4.skip(lit_status().len() as int);
                        match sp_str(s5) {
                            None => None,
                            Some((tag, s6)) => match status_of_tag(tag) {
                                None => None,
                                Some(st) => if !starts_with(s6, lit_created()) {
                                    None
                                } else {
                                    match sp_num(s6.skip(lit_created().len() as int)) {
                                        None => None,
                                        Some((ca, s7)) => if !starts_with(s7, lit_updated()) {
                                            None
                                        } else {
                                            match sp_num(s7.skip(lit_updated().len() as int)) {
                                                None => None,
                                                Some((ua, s8)) => if s8.len() == 0 || s8[0] != '}' {
                                                    None
                                                } else {
                                                    Some(
                                                        (
                                                            TaskView {
                                                                id: id as u32,
                                                                description: desc,
                                                                status: st,
                                                                created_at: ca,
                                                                updated_at: ua,
                                                            },
                                                            s8.drop_first(),
                                                        ),
                                                    )
                                                },
                                            }
                                        },
                                    }
                                },
                            },
                        }
                    },
                }
            },
        }
    }
}

/// Reading a serialized record back yields the record and the rest.
#[verifier::rlimit(100)]
proof fn lemma_rt_record(t: TaskView, tail: Seq<char>)
    ensures
        sp_record(spec_ser_task(t) + tail) == Some((t, tail)),
{
    let f_id = spec_fmt_u64(t.id as nat);
    let f_ca = spec_fmt_u64(t.created_at as nat);
    let f_ua = spec_fmt_u64(t.updated_at as nat);
    let esc = spec_esc(t.description);
    let tag = spec_tag(t.status);
    let q = seq!['"'];
    let cb = seq!['}'];
    lemma_tag_round_trip(t.status);

    // The serialized record, with the tail folded into each layer.
    let r8 = cb + tail;
    let r7 = f_ua + r8;
    let r6 = lit_updated() + r7;
    let r5 = f_ca + r6;
    let r4 = lit_created() + r5;
    let r3 = tag + (q + r4);
    let r2 = lit_status() + r3;
    let r1 = esc + (q + r2);
    let r0 = lit_desc() + r1;
    let rn = f_id + r0;

    // The nesting of the record itself.
    let y12 = f_ua + cb;
    let y11 = lit_updated() + y12;
    let y10 = f_ca + y11;
    let y9 = lit_created() + y10;
    let y8 = q + y9;
    let y7 = tag + y8;
    let y6 = lit_status() + y7;
    let y5 = q + y6;
    let y4 = esc + y5;
    let y3 = lit_desc() + y4;
    let y2 = f_id + y3;
    assert(spec_ser_task(t) == lit_obj() + y2);
    let s = spec_ser_task(t) + tail;

    lemma_assoc(f_ua, cb, tail);
    assert(y12 + tail == r7);
    lemma_assoc(lit_updated(), y12, tail);
    assert(y11 + tail == r6);
    lemma_assoc(f_ca, y11, tail);
    assert(y10 + tail == r5);
    lemma_assoc(lit_created(), y10, tail);
    assert(y9 + tail == r4);
    lemma_assoc(q, y9, tail);
    assert(y8 + tail == q + r4);
    lemma_assoc(tag, y8, tail);
    assert(y7 + tail == r3);
    lemma_assoc(lit_status(), y7, tail);
    assert(y6 + tail == r2);
    lemma_assoc(q, y6, tail);
    assert(y5 + tail == q + r2);
    lemma_assoc(esc, y5, tail);
    assert(y4 + tail == r1);
    lemma_assoc(lit_desc(), y4, tail);
    assert(y3 + tail == r0);
    lemma_assoc(f_id, y3, tail);
    assert(y2 + tail == rn);
    lemma_assoc(lit_obj(), y2, tail);
    assert(s == lit_obj() + rn);

    lemma_split(lit_obj(), rn);
    assert(starts_with(s, lit_obj()));
    assert(s.skip(lit_obj().len() as int) == rn);
    assert(r0[0] == ',');
    lemma_sp_num_fmt(t.id as u64, r0);
    assert(sp_num(rn) == Some((t.id as u64, r0)));

    lemma_split(lit_desc(), r1);
    assert(r0.skip(lit_desc().len() as int) == r1);
    lemma_assoc(esc, q, r2);
    lemma_sp_str_esc(t.description, r2);
    assert(sp_str(r1) == Some((t.description, r2)));

    lemma_split(lit_status(), r3);
    assert(r2.skip(lit_status().len() as int) == r3);
    lemma_assoc(tag, q, r4);
    lemma_sp_str_esc(tag, r4);
    assert(sp_str(r3) == Some((tag, r4)));
    assert(status_of_tag(tag) == Some(t.status));

    lemma_split(lit_created(), r5);
    assert(r4.skip(lit_created().len() as int) == r5);
    assert(r6[0] == ',');
    lemma_sp_num_fmt(t.created_at, r6);
    assert(sp_num(r5) == Some((t.created_at, r6)));

    lemma_split(lit_updated(), r7);
    assert(r6.skip(lit_updated().len() as int) == r7);
    assert(r8[0] == '}');
    lemma_sp_num_fmt(t.updated_at, r8);
    assert(sp_num(r7) == Some((t.updated_at, r8)));

    assert(r8.drop_first() =~= tail);
    let tv = TaskView {
        id: t.id,
        description: t.description,
        status: t.status,
        created_at: t.created_at,
        updated_at: t.updated_at,
    };
    assert(sp_record(s) == Some((tv, tail)));
    assert(tv == t);
}

// ---------------------------------------------------------------
// The collection
// ---------------------------------------------------------------
/// The serialized records, separated by commas.
pub open spec fn spec_ser_tasks(ts: Seq<TaskView>) -> Seq<char>
    decreases ts.len(),
{
    if ts.len() == 0 {
        Seq::<char>::empty()
    } else if ts.len() == 1 {
        spec_ser_task(ts[0])
    } else {
        spec_ser_task(ts[0]) + (seq![','] + spec_ser_tasks(ts.drop_first()))
    }
}

/// A whole collection's serialized form: the records in their stored
/// (ascending id) order, between square brackets.
pub open spec fn spec_ser(ts: Seq<TaskView>) -> Seq<char> {
    seq!['['] + (spec_ser_tasks(ts) + seq![']'])
}

/// Reading one or more comma-separated records and the closing
/// bracket off the front of the string.  The fuel only bounds the
/// recursion; one unit is spent per record.
pub open spec fn sp_tasks(s: Seq<char>, fuel: nat) -> Option<(Seq<TaskView>, Seq<char>)>
    decreases fuel,
{
    if fuel == 0 {
        None
    } else {
        match sp_record(s) {
            None => None,
            Some((t, r)) => if r.len() == 0 {
                None
            } else if r[0] == ']' {
                Some((seq![t], r.drop_first()))
            } else if r[0] == ',' {
                match sp_tasks(r.drop_first(), (fuel - 1) as nat) {
                    None => None,
                    Some((ts2, r2)) => Some((seq![t] + ts2, r2)),
                }
            } else {
                None
            },
        }
    }
}

/// What a text denotes as a task collection: nothing at all, or the
/// two brackets alone, denote the empty collection; otherwise exactly
/// a bracketed list of records with nothing after it.
pub open spec fn spec_parse(s: Seq<char>) -> Option<Seq<TaskView>> {
    if s.len() == 0 {
        Some(Seq::<TaskView>::empty())
    } else if s.len() == 2 && s[0] == '[' && s[1] == ']' {
        Some(Seq::<TaskView>::empty())
    } else if s[0] == '[' {
        match sp_tasks(s.skip(1), s.len() as nat) {
            None => None,
            Some((ts, r)) => if r.len() == 0 {
                Some(ts)
            } else {
                None
            },
        }
    } else {
        None
    }
}

/// What a text loads as: a parsed collection that is also well
/// formed; anything else is corrupt.
pub open spec fn spec_load(s: Seq<char>) -> Option<Seq<TaskView>> {
    match spec_parse(s) {
        None => None,
        Some(ts) => if wf_tasks(ts) {
            Some(ts)
        } else {
            None
        },
    }
}

/// A serialized record opens with a brace and is never shorter than
/// its first literal.
proof fn lemma_ser_task_shape(t: TaskView)
    ensures
        spec_ser_task(t).len() >= 6,
        spec_ser_task(t)[0] == '{',
{
    assert(spec_ser_task(t)[0] == lit_obj()[0]);
}

/// Serialization never shrinks a collection below one character per
/// task.
proof fn lemma_ser_tasks_len(ts: Seq<TaskView>)
    ensures
        spec_ser_tasks(ts).len() >= ts.len(),
    decreases ts.len(),
{
    if ts.len() == 1 {
        lemma_ser_task_shape(ts[0]);
    } else if ts.len() > 1 {
        lemma_ser_task_shape(ts[0]);
        lemma_ser_tasks_len(ts.drop_first());
    }
}

/// A nonempty collection's serialization opens with a brace.
proof fn lemma_ser_tasks_first(ts: Seq<TaskView>)
    requires
        ts.len() >= 1,
    ensures
        spec_ser_tasks(ts).len() >= 6,
        spec_ser_tasks(ts)[0] == '{',
{
    lemma_ser_task_shape(ts[0]);
    if ts.len() > 1 {
        assert(spec_ser_tasks(ts)[0] == spec_ser_task(ts[0])[0]);
    }
}

/// Appending one task to a collection appends its record, after a
/// comma when the collection was not empty.
proof fn lemma_ser_tasks_push(ts: Seq<TaskView>, t: TaskView)
    ensures
        spec_ser_tasks(ts.push(t)) == if ts.len() == 0 {
            spec_ser_task(t)
        } else {
            spec_ser_tasks(ts) + (seq![','] + spec_ser_task(t))
        },
    decreases ts.len(),
{
    let w = ts.push(t);
    if ts.len() == 0 {
        assert(w[0] == t);
    } else if ts.len() == 1 {
        assert(w[0] == ts[0]);
        assert(w.drop_first() =~= seq![t]);
        assert(spec_ser_tasks(seq![t]) == spec_ser_task(t));
    } else {
        assert(w[0] == ts[0]);
        assert(w.drop_first() =~= ts.drop_first().push(t));
        lemma_ser_tasks_push(ts.drop_first(), t);
        let a = spec_ser_task(ts[0]);
        let c = seq![','];
        let x = spec_ser_tasks(ts.drop_first());
        let e = seq![','] + spec_ser_task(t);
        assert(spec_ser_tasks(w) == a + (c + (x + e)));
        lemma_assoc(c, x, e);
        lemma_assoc(a, c + x, e);
        assert(a + (c + (x + e)) == (a + (c + x)) + e);
    }
}

/// Reading a serialized, bracket-terminated record list back yields
/// the records and what follows the closing bracket.
proof fn lemma_rt_tasks(ts: Seq<TaskView>, rest: Seq<char>, fuel: nat)
    requires
        ts.len() >= 1,
        fuel >= ts.len(),
    ensures
        sp_tasks(spec_ser_tasks(ts) + (seq![']'] + rest), fuel) == Some((ts, rest)),
    decreases ts.len(),
{
    let s = spec_ser_tasks(ts) + (seq![']'] + rest);
    if ts.len() == 1 {
        lemma_rt_record(ts[0], seq![']'] + rest);
        let r = seq![']'] + rest;
        assert(sp_record(s) == Some((ts[0], r)));
        assert(r[0] == ']');
        assert(r.drop_first() =~= rest);
        assert(seq![ts[0]] =~= ts);
    } else {
        let rec0 = spec_ser_task(ts[0]);
        let inner = spec_ser_tasks(ts.drop_first());
        let br = seq![']'] + rest;
        assert(spec_ser_tasks(ts) == rec0 + (seq![','] + inner));
        lemma_assoc(rec0, seq![','] + inner, br);
        lemma_assoc(seq![','], inner, br);
        let tail0 = seq![','] + (inner + br);
        assert(s == rec0 + tail0);
        lemma_rt_record(ts[0], tail0);
        assert(sp_record(s) == Some((ts[0], tail0)));
        assert(tail0[0] == ',');
        assert(tail0.drop_first() =~= inner + br);
        lemma_rt_tasks(ts.drop_first(), rest, (fuel - 1) as nat);
        assert(sp_tasks(tail0.drop_first(), (fuel - 1) as nat) == Some((ts.drop_first(), rest)));
        assert(seq![ts[0]] + ts.drop_first() =~= ts);
    }
}

/// Round trip: a serialized collection parses back to exactly the
/// collection it came from.
pub proof fn lemma_parse_ser_round_trip(ts: Seq<TaskView>)
    ensures
        spec_parse(spec_ser(ts)) == Some(ts),
{
    let inner = spec_ser_tasks(ts) + seq![']'];
    let s = spec_ser(ts);
    if ts.len() == 0 {
        assert(s =~= seq!['[', ']']);
        assert(s.len() == 2 && s[0] == '[' && s[1] == ']');
        assert(ts =~= Seq::<TaskView>::empty());
    } else {
        lemma_ser_tasks_first(ts);
        assert(s[0] == '[');
        assert(s[1] == inner[0]);
        assert(inner[0] == spec_ser_tasks(ts)[0]);
        assert(s[1] == '{');
        lemma_split(seq!['['], inner);
        assert(s.skip(1) == inner);
        assert(seq![']'] + Seq::<char>::empty() =~= seq![']']);
        assert(inner == spec_ser_tasks(ts) + (seq![']'] + Seq::<char>::empty()));
        lemma_ser_tasks_len(ts);
        lemma_rt_tasks(ts, Seq::<char>::empty(), s.len() as nat);
        assert(sp_tasks(s.skip(1), s.len() as nat) == Some((ts, Seq::<char>::empty())));
    }
}

/// The persistence law: saving a well-formed collection and loading
/// what was written yields a collection equal in ids, descriptions,
/// statuses and timestamps.
pub proof fn lemma_save_load_round_trip(ts: Seq<TaskView>)
    requires
        wf_tasks(ts),
    ensures
        spec_load(spec_ser(ts)) == Some(ts),
{
    lemma_parse_ser_round_trip(ts);
}

// ---------------------------------------------------------------
// Writing
// ---------------------------------------------------------------
/// Relies on `String::push`: appends the one character to the end of
/// the string.
#[verifier::external_body]
fn push_char(s: &mut String, c: char)
    ensures
        final(s)@ == old(s)@.push(c),
{
    s.push(c);
}

/// The characters, as one string.
fn chars_to_string(v: &Vec<char>) -> (r: String)
    ensures
        r@ == v@,
{
    let mut r = String::new();
    let mut i: usize = 0;
    while i < v.len()
        invariant
            i <= v@.len(),
            r@ =~= v@.take(i as int),
        decreases v@.len() - i,
    {
        push_char(&mut r, v[i]);
        proof {
            assert(v@.take(i + 1) =~= v@.take(i as int).push(v@[i as int]));
        }
        i += 1;
    }
    proof {
        assert(v@.take(v@.len() as int) =~= v@);
    }
    r
}

/// The string, as its characters.
fn str_to_chars(s: &str) -> (v: Vec<char>)
    ensures
        v@ == s@,
{
    let n = s.unicode_len();
    let mut v: Vec<char> = Vec::new();
    let mut i: usize = 0;
    while i < n
        invariant
            n == s@.len(),
            i <= n,
            v@ =~= s@.take(i as int),
        decreases n - i,
    {
        let c = s.get_char(i);
        v.push(c);
        proof {
            assert(s@.take(i + 1) =~= s@.take(i as int).push(s@[i as int]));
        }
        i += 1;
    }
    proof {
        assert(s@.take(n as int) =~= s@);
    }
    v
}

/// Appends every character of `p`.
fn push_all(out: &mut Vec<char>, p: &Vec<char>)
    ensures
        final(out)@ == old(out)@ + p@,
{
    let mut i: usize = 0;
    while i < p.len()
        invariant
            i <= p@.len(),
            out@ =~= old(out)@ + p@.take(i as int),
        decreases p@.len() - i,
    {
        out.push(p[i]);
        proof {
            assert(old(out)@ + p@.take(i + 1) =~= (old(out)@ + p@.take(i as int)).push(
                p@[i as int],
            ));
        }
        i += 1;
    }
    proof {
        assert(p@.take(p@.len() as int) =~= p@);
    }
}

fn lit_obj_vec() -> (v: Vec<char>)
    ensures
        v@ == lit_obj(),
{
    let mut v: Vec<char> = Vec::new();
    v.push('{');
    v.push('"');
    v.push('i');
    v.push('d');
    v.push('"');
    v.push(':');
    proof {
        assert(v@ =~= lit_obj());
    }
    v
}

fn lit_desc_vec() -> (v: Vec<char>)
    ensures
        v@ == lit_desc(),
{
    let mut v: Vec<char> = Vec::new();
    v.push(',');
    v.push('"');
    v.push('d');
    v.push('e');
    v.push('s');
    v.push('c');
    v.push('r');
    v.push('i');
    v.push('p');
    v.push('t');
    v.push('i');
    v.push('o');
    v.push('n');
    v.push('"');
    v.push(':');
    v.push('"');
    proof {
        assert(v@ =~= lit_desc());
    }
    v
}

fn lit_status_vec() -> (v: Vec<char>)
    ensures
        v@ == lit_status(),
{
    let mut v: Vec<char> = Vec::new();
    v.push(',');
    v.push('"');
    v.push('s');
    v.push('t');
    v.push('a');
    v.push('t');
    v.push('u');
    v.push('s');
    v.push('"');
    v.push(':');
    v.push('"');
    proof {
        assert(v@ =~= lit_status());
    }
    v
}

fn lit_created_vec() -> (v: Vec<char>)
    ensures
        v@ == lit_created(),
{
    let mut v: Vec<char> = Vec::new();
    v.push(',');
    v.push('"');
    v.push('c');
    v.push('r');
    v.push('e');
    v.push('a');
    v.push('t');
    v.push('e');
    v.push('d');
    v.push('_');
    v.push('a');
    v.push('t');
    v.push('"');
    v.push(':');
    proof {
        assert(v@ =~= lit_created());
    }
    v
}

fn lit_updated_vec() -> (v: Vec<char>)
    ensures
        v@ == lit_updated(),
{
    let mut v: Vec<char> = Vec::new();
    v.push(',');
    v.push('"');
    v.push('u');
    v.push('p');
    v.push('d');
    v.push('a');
    v.push('t');
    v.push('e');
    v.push('d');
    v.push('_');
    v.push('a');
    v.push('t');
    v.push('"');
    v.push(':');
    proof {
        assert(v@ =~= lit_updated());
    }
    v
}

fn tag_vec(st: Status) -> (v: Vec<char>)
    ensures
        v@ == spec_tag(st),
{
    let mut v: Vec<char> = Vec::new();
    match st {
        Status::Todo => {
            v.push('T');
            v.push('o');
            v.push('d');
            v.push('o');
        },
        Status::InProgress => {
            v.push('I');
            v.push('n');
            v.push('P');
            v.push('r');
            v.push('o');
            v.push('g');
            v.push('r');
            v.push('e');
            v.push('s');
            v.push('s');
        },
        Status::Done => {
            v.push('D');
            v.push('o');
            v.push('n');
            v.push('e');
        },
    }
    proof {
        assert(v@ =~= spec_tag(st));
    }
    v
}

fn digit_to_char(d: u64) -> (c: char)
    requires
        d < 10,
    ensures
        c == digit_char(d as nat),
{
    if d == 0 {
        '0'
    } else if d == 1 {
        '1'
    } else if d == 2 {
        '2'
    } else if d == 3 {
        '3'
    } else if d == 4 {
        '4'
    } else if d == 5 {
        '5'
    } else if d == 6 {
        '6'
    } else if d == 7 {
        '7'
    } else if d == 8 {
        '8'
    } else {
        '9'
    }
}

/// Appends the decimal digits of `n`.
fn fmt_u64_into(n: u64, out: &mut Vec<char>)
    ensures
        final(out)@ == old(out)@ + spec_fmt_u64(n as nat),
    decreases n,
{
    if n < 10 {
        out.push(digit_to_char(n));
        proof {
            assert(old(out)@ + spec_fmt_u64(n as nat) =~= old(out)@.push(digit_char(n as nat)));
        }
    } else {
        fmt_u64_into(n / 10, out);
        out.push(digit_to_char(n % 10));
        proof {
            assert(spec_fmt_u64(n as nat) == spec_fmt_u64((n / 10) as nat).push(
                digit_char((n % 10) as nat),
            ));
            assert(old(out)@ + spec_fmt_u64(n as nat) =~= (old(out)@ + spec_fmt_u64(
                (n / 10) as nat,
            )).push(digit_char((n % 10) as nat)));
        }
    }
}

/// Appends the escaped form of the text.
fn esc_into(s: &str, out: &mut Vec<char>)
    ensures
        final(out)@ == old(out)@ + spec_esc(s@),
{
    let n = s.unicode_len();
    let mut i: usize = 0;
    while i < n
        invariant
            n == s@.len(),
            i <= n,
            out@ =~= old(out)@ + spec_esc(s@.take(i as int)),
        decreases n - i,
    {
        let ghost out0 = out@;
        let c = s.get_char(i);
        if c == '"' || c == '\\' {
            out.push('\\');
            out.push(c);
        } else {
            out.push(c);
        }
        proof {
            lemma_esc_push(s@.take(i as int), s@[i as int]);
            assert(s@.take(i + 1) =~= s@.take(i as int).push(s@[i as int]));
            assert(out@ =~= out0 + esc_char(s@[i as int]));
            lemma_assoc(old(out)@, spec_esc(s@.take(i as int)), esc_char(s@[i as int]));
            assert(out@ =~= old(out)@ + spec_esc(s@.take(i + 1)));
        }
        i += 1;
    }
    proof {
        assert(s@.take(n as int) =~= s@);
    }
}

/// Appends one record.
#[verifier::rlimit(100)]
fn ser_task_into(t: &Task, out: &mut Vec<char>)
    ensures
        final(out)@ == old(out)@ + spec_ser_task(t@),
{
    let ghost p1 = lit_obj();
    let ghost p2 = spec_fmt_u64(t@.id as nat);
    let ghost p3 = lit_desc();
    let ghost p4 = spec_esc(t@.description);
    let ghost p5 = seq!['"'];
    let ghost p6 = lit_status();
    let ghost p7 = spec_tag(t@.status);
    let ghost p8 = seq!['"'];
    let ghost p9 = lit_created();
    let ghost p10 = spec_fmt_u64(t@.created_at as nat);
    let ghost p11 = lit_updated();
    let ghost p12 = spec_fmt_u64(t@.updated_at as nat);
    let ghost p13 = seq!['}'];

    let l1 = lit_obj_vec();
    push_all(out, &l1);
    fmt_u64_into(t.id as u64, out);
    let l3 = lit_desc_vec();
    push_all(out, &l3);
    esc_into(t.description.as_str(), out);
    out.push('"');
    let l6 = lit_status_vec();
    push_all(out, &l6);
    let l7 = tag_vec(t.status);
    push_all(out, &l7);
    out.push('"');
    let l9 = lit_created_vec();
    push_all(out, &l9);
    fmt_u64_into(t.created_at, out);
    let l11 = lit_updated_vec();
    push_all(out, &l11);
    fmt_u64_into(t.updated_at, out);
    out.push('}');

    proof {
        let o = old(out)@;
        let m1 = o + p1;
        let m2 = m1 + p2;
        let m3 = m2 + p3;
        let m4 = m3 + p4;
        let m5 = m4 + p5;
        let m6 = m5 + p6;
        let m7 = m6 + p7;
        let m8 = m7 + p8;
        let m9 = m8 + p9;
        let m10 = m9 + p10;
        let m11 = m10 + p11;
        let m12 = m11 + p12;
        assert(m5 =~= m4.push('"'));
        assert(m8 =~= m7.push('"'));
        assert(out@ =~= m12.push('}'));
        assert(out@ == m12 + p13);

        let r13 = p13;
        let r12 = p12 + r13;
        let r11 = p11 + r12;
        let r10 = p10 + r11;
        let r9 = p9 + r10;
        let r8 = p8 + r9;
        let r7 = p7 + r8;
        let r6 = p6 + r7;
        let r5 = p5 + r6;
        let r4 = p4 + r5;
        let r3 = p3 + r4;
        let r2 = p2 + r3;
        let r1 = p1 + r2;
        assert(spec_ser_task(t@) == r1);

        lemma_assoc(m11, p12, r13);
        assert(out@ == m11 + r12);
        lemma_assoc(m10, p11, r12);
        assert(out@ == m10 + r11);
        lemma_assoc(m9, p10, r11);
        assert(out@ == m9 + r10);
        lemma_assoc(m8, p9, r10);
        assert(out@ == m8 + r9);
        lemma_assoc(m7, p8, r9);
        assert(out@ == m7 + r8);
        lemma_assoc(m6, p7, r8);
        assert(out@ == m6 + r7);
        lemma_assoc(m5, p6, r7);
        assert(out@ == m5 + r6);
        lemma_assoc(m4, p5, r6);
        assert(out@ == m4 + r5);
        lemma_assoc(m3, p4, r5);
        assert(out@ == m3 + r4);
        lemma_assoc(m2, p3, r4);
        assert(out@ == m2 + r3);
        lemma_assoc(m1, p2, r3);
        assert(out@ == m1 + r2);
        lemma_assoc(o, p1, r2);
        assert(out@ == o + r1);
    }
}

/// The whole collection's serialized form.
pub(crate) fn serialize_tasks(tasks: &Vec<Task>) -> (r: String)
    ensures
        r@ == spec_ser(views_of(tasks@)),
{
    let ghost vs = views_of(tasks@);
    let mut out: Vec<char> = Vec::new();
    out.push('[');
    proof {
        assert(out@ =~= seq!['['] + spec_ser_tasks(vs.take(0)));
    }
    let mut i: usize = 0;
    while i < tasks.len()
        invariant
            i <= tasks@.len(),
            vs == views_of(tasks@),
            vs.len() == tasks@.len(),
            out@ =~= seq!['['] + spec_ser_tasks(vs.take(i as int)),
        decreases tasks@.len() - i,
    {
        let ghost sofar = spec_ser_tasks(vs.take(i as int));
        let ghost out0 = out@;
        if i > 0 {
            out.push(',');
        }
        ser_task_into(&tasks[i], &mut out);
        proof {
            assert(vs.take(i + 1) =~= vs.take(i as int).push(vs[i as int]));
            assert(tasks@[i as int]@ == vs[i as int]);
            lemma_ser_tasks_push(vs.take(i as int), vs[i as int]);
            let rec = spec_ser_task(vs[i as int]);
            if i == 0 {
                assert(vs.take(0) =~= Seq::<TaskView>::empty());
                assert(out@ == out0 + rec);
                assert(out@ =~= seq!['['] + spec_ser_tasks(vs.take(1)));
            } else {
                assert(out@ =~= (out0.push(',')) + rec);
                assert(out0.push(',') =~= out0 + seq![',']);
                assert(out@ =~= (out0 + seq![',']) + rec);
                lemma_assoc(out0, seq![','], rec);
                assert(out@ =~= ((seq!['['] + sofar) + (seq![','] + rec)));
                lemma_assoc(seq!['['], sofar, seq![','] + rec);
                assert(out@ =~= seq!['['] + (sofar + (seq![','] + rec)));
                assert(spec_ser_tasks(vs.take(i + 1)) == sofar + (seq![','] + rec));
            }
        }
        i += 1;
    }
    out.push(']');
    proof {
        assert(vs.take(vs.len() as int) =~= vs);
        let sn = spec_ser_tasks(vs);
        assert(out@ =~= (seq!['['] + sn).push(']'));
        assert((seq!['['] + sn).push(']') =~= seq!['['] + (sn + seq![']']));
    }
    chars_to_string(&out)
}

// ---------------------------------------------------------------
// Reading
// ---------------------------------------------------------------
fn is_digit_exec(c: char) -> (b: bool)
    ensures
        b == is_dec_digit(c),
{
    let u = c as u32;
    48 <= u && u <= 57
}

fn digit_val_exec(c: char) -> (d: u64)
    requires
        is_dec_digit(c),
    ensures
        d == digit_val(c),
        d < 10,
{
    (c as u32 - 48) as u64
}

/// A longer digit prefix never denotes a smaller value.
proof fn lemma_num_val_monotone(s: Seq<char>, q: int)
    requires
        0 <= q <= s.len(),
    ensures
        spec_num_val(s.take(q)) <= spec_num_val(s),
    decreases s.len(),
{
    if q == s.len() {
        assert(s.take(q) =~= s);
    } else {
        assert(s.drop_last().take(q) =~= s.take(q));
        lemma_num_val_monotone(s.drop_last(), q);
    }
}

/// Reads the number at position `i`, as `sp_num` reads the suffix
/// there.
fn parse_num(v: &Vec<char>, i: usize) -> (r: Option<(u64, usize)>)
    requires
        i <= v@.len(),
    ensures
        match r {
            Some((n, j)) => i < j <= v@.len() && sp_num(v@.skip(i as int)) == Some(
                (n, v@.skip(j as int)),
            ),
            None => sp_num(v@.skip(i as int)) is None,
        },
{
    let ghost s = v@.skip(i as int);
    let mut j: usize = i;
    while j < v.len() && is_digit_exec(v[j])
        invariant
            i <= j <= v@.len(),
            s == v@.skip(i as int),
            digit_prefix_len(s) == (j - i) + digit_prefix_len(v@.skip(j as int)),
            forall|q: int| i <= q < j ==> is_dec_digit(#[trigger] v@[q]),
        decreases v@.len() - j,
    {
        proof {
            assert(v@.skip(j as int)[0] == v@[j as int]);
            assert(v@.skip(j as int).drop_first() =~= v@.skip(j + 1));
        }
        j += 1;
    }
    proof {
        if j < v@.len() {
            assert(v@.skip(j as int)[0] == v@[j as int]);
        }
        assert(digit_prefix_len(v@.skip(j as int)) == 0);
        assert(digit_prefix_len(s) == j - i);
    }
    if j == i {
        return None;
    }
    let ghost k = (j - i) as int;
    let lim: u64 = u64::MAX / 10;
    let mut val: u64 = 0;
    let mut p: usize = i;
    while p < j
        invariant
            i <= p <= j <= v@.len(),
            s == v@.skip(i as int),
            k == j - i,
            digit_prefix_len(s) == k,
            forall|q: int| i <= q < j ==> is_dec_digit(#[trigger] v@[q]),
            lim == u64::MAX / 10,
            val == spec_num_val(s.take(p - i)),
        decreases j - p,
    {
        let c = v[p];
        proof {
            assert(s[p - i] == v@[p as int]);
        }
        let d = digit_val_exec(c);
        proof {
            assert(s.take(p - i + 1) =~= s.take(p - i).push(s[p - i]));
            assert(s.take(p - i + 1).drop_last() =~= s.take(p - i));
            assert(s.take(p - i + 1).last() == s[p - i]);
            assert(spec_num_val(s.take(p - i + 1)) == val * 10 + digit_val(c));
        }
        if val > lim || (val == lim && d > 5) {
            proof {
                assert(val * 10 + digit_val(c) > u64::MAX);
                assert(s.take(k).take(p - i + 1) =~= s.take(p - i + 1));
                lemma_num_val_monotone(s.take(k), p - i + 1);
                assert(spec_num_val(s.take(k)) > u64::MAX as nat);
            }
            return None;
        }
        val = val * 10 + d;
        p += 1;
    }
    proof {
        assert(s.skip(k) =~= v@.skip(j as int));
        assert(sp_num(s) == Some((val, v@.skip(j as int))));
    }
    Some((val, j))
}

/// Reads the quoted-string body at position `i`, as `sp_str` reads
/// the suffix there.
fn parse_qstring(v: &Vec<char>, i: usize) -> (r: Option<(Vec<char>, usize)>)
    requires
        i <= v@.len(),
    ensures
        match r {
            Some((content, j)) => i < j <= v@.len() && sp_str(v@.skip(i as int)) == Some(
                (content@, v@.skip(j as int)),
            ),
            None => sp_str(v@.skip(i as int)) is None,
        },
{
    let mut out: Vec<char> = Vec::new();
    let mut j: usize = i;
    loop
        invariant
            i <= j <= v@.len(),
            match sp_str(v@.skip(j as int)) {
                None => sp_str(v@.skip(i as int)) is None,
                Some(p) => sp_str(v@.skip(i as int)) == Some((out@ + p.0, p.1)),
            },
        decreases v@.len() - j,
    {
        if j == v.len() {
            proof {
                assert(v@.skip(j as int).len() == 0);
            }
            return None;
        }
        let c = v[j];
        proof {
            assert(v@.skip(j as int)[0] == v@[j as int]);
        }
        if c == '"' {
            proof {
                assert(v@.skip(j as int).drop_first() =~= v@.skip(j + 1));
                assert(sp_str(v@.skip(j as int)) == Some(
                    (Seq::<char>::empty(), v@.skip(j + 1)),
                ));
                assert(out@ + Seq::<char>::empty() =~= out@);
            }
            return Some((out, j + 1));
        } else if c == '\\' {
            if j + 1 < v.len() {
                let c2 = v[j + 1];
                proof {
                    assert(v@.skip(j as int)[1] == v@[j + 1]);
                }
                if c2 == '"' || c2 == '\\' {
                    let ghost out0 = out@;
                    out.push(c2);
                    proof {
                        assert(v@.skip(j as int).skip(2) =~= v@.skip(j + 2));
                        let sj2 = v@.skip(j + 2);
                        if sp_str(sj2) is Some {
                            let p = sp_str(sj2)->Some_0;
                            assert(sp_str(v@.skip(j as int)) == Some((seq![c2] + p.0, p.1)));
                            assert(out@ =~= out0 + seq![c2]);
                            lemma_assoc(out0, seq![c2], p.0);
                        } else {
                            assert(sp_str(v@.skip(j as int)) is None);
                        }
                    }
                    j += 2;
                } else {
                    proof {
                        assert(sp_str(v@.skip(j as int)) is None);
                    }
                    return None;
                }
            } else {
                proof {
                    assert(v@.skip(j as int).len() == 1);
                    assert(sp_str(v@.skip(j as int)) is None);
                }
                return None;
            }
        } else {
            let ghost out0 = out@;
            out.push(c);
            proof {
                assert(v@.skip(j as int).drop_first() =~= v@.skip(j + 1));
                let sj1 = v@.skip(j + 1);
                if sp_str(sj1) is Some {
                    let p = sp_str(sj1)->Some_0;
                    assert(sp_str(v@.skip(j as int)) == Some((seq![c] + p.0, p.1)));
                    assert(out@ =~= out0 + seq![c]);
                    lemma_assoc(out0, seq![c], p.0);
                } else {
                    assert(sp_str(v@.skip(j as int)) is None);
                }
            }
            j += 1;
        }
    }
}

/// Checks that the text at position `i` begins with the given
/// literal; on success the position just past it.
fn eat(v: &Vec<char>, i: usize, lit: &Vec<char>) -> (r: Option<usize>)
    requires
        i <= v@.len(),
    ensures
        match r {
            Some(j) => j == i + lit@.len() && j <= v@.len() && starts_with(
                v@.skip(i as int),
                lit@,
            ),
            None => !starts_with(v@.skip(i as int), lit@),
        },
{
    let m = lit.len();
    if v.len() - i < m {
        return None;
    }
    let mut k: usize = 0;
    while k < m
        invariant
            k <= m,
            m == lit@.len(),
            i + m <= v@.len(),
            v@.len() <= usize::MAX,
            forall|q: int| 0 <= q < k ==> v@[i + q] == lit@[q],
        decreases m - k,
    {
        if v[i + k] != lit[k] {
            proof {
                assert(v@.skip(i as int).take(m as int)[k as int] == v@[i + k]);
            }
            return None;
        }
        k += 1;
    }
    proof {
        assert(v@.skip(i as int).take(m as int) =~= lit@);
    }
    Some(i + m)
}

/// The status a tag's characters name.
fn status_of_chars(tag: &Vec<char>) -> (r: Option<Status>)
    ensures
        r == status_of_tag(tag@),
{
    let n = tag.len();
    if n == 4 && tag[0] == 'T' && tag[1] == 'o' && tag[2] == 'd' && tag[3] == 'o' {
        proof {
            assert(tag@ =~= spec_tag(Status::Todo));
        }
        Some(Status::Todo)
    } else if n == 4 && tag[0] == 'D' && tag[1] == 'o' && tag[2] == 'n' && tag[3] == 'e' {
        proof {
            assert(tag@ =~= spec_tag(Status::Done));
            assert(spec_tag(Status::Todo)[0] == 'T');
            assert(spec_tag(Status::InProgress).len() == 10);
        }
        Some(Status::Done)
    } else if n == 10 && tag[0] == 'I' && tag[1] == 'n' && tag[2] == 'P' && tag[3] == 'r' && tag[4]
        == 'o' && tag[5] == 'g' && tag[6] == 'r' && tag[7] == 'e' && tag[8] == 's' && tag[9]
        == 's' {
        proof {
            assert(tag@ =~= spec_tag(Status::InProgress));
            assert(spec_tag(Status::Todo).len() == 4);
        }
        Some(Status::InProgress)
    } else {
        proof {
            assert(spec_tag(Status::Todo).len() == 4);
            assert(spec_tag(Status::Done).len() == 4);
            assert(spec_tag(Status::InProgress).len() == 10);
            if tag@ == spec_tag(Status::Todo) {
                assert(tag@[0] == 'T' && tag@[1] == 'o' && tag@[2] == 'd' && tag@[3] == 'o');
            }
            if tag@ == spec_tag(Status::Done) {
                assert(tag@[0] == 'D' && tag@[1] == 'o' && tag@[2] == 'n' && tag@[3] == 'e');
            }
            if tag@ == spec_tag(Status::InProgress) {
                assert(tag@[0] == 'I' && tag@[1] == 'n' && tag@[2] == 'P' && tag@[3] == 'r'
                    && tag@[4] == 'o' && tag@[5] == 'g' && tag@[6] == 'r' && tag@[7] == 'e'
                    && tag@[8] == 's' && tag@[9] == 's');
            }
        }
        None
    }
}

/// Reads the record at position `i`, as `sp_record` reads the suffix
/// there.
#[verifier::rlimit(100)]
fn parse_record(v: &Vec<char>, i: usize) -> (r: Option<(Task, usize)>)
    requires
        i <= v@.len(),
    ensures
        match r {
            Some((t, j)) => i < j <= v@.len() && sp_record(v@.skip(i as int)) == Some(
                (t@, v@.skip(j as int)),
            ),
            None => sp_record(v@.skip(i as int)) is None,
        },
{
    let ghost s = v@.skip(i as int);
    let l1 = lit_obj_vec();
    let j1 = match eat(v, i, &l1) {
        Some(j) => j,
        None => {
            return None;
        },
    };
    proof {
        assert(s.skip(lit_obj().len() as int) =~= v@.skip(j1 as int));
    }
    let (idv, j2) = match parse_num(v, j1) {
        Some(p) => p,
        None => {
            return None;
        },
    };
    if idv > u32::MAX as u64 {
        return None;
    }
    let l2 = lit_desc_vec();
    let j3 = match eat(v, j2, &l2) {
        Some(j) => j,
        None => {
            return None;
        },
    };
    proof {
        assert(v@.skip(j2 as int).skip(lit_desc().len() as int) =~= v@.skip(j3 as int));
    }
    let (desc, j4) = match parse_qstring(v, j3) {
        Some(p) => p,
        None => {
            return None;
        },
    };
    let l3 = lit_status_vec();
    let j5 = match eat(v, j4, &l3) {
        Some(j) => j,
        None => {
            return None;
        },
    };
    proof {
        assert(v@.skip(j4 as int).skip(lit_status().len() as int) =~= v@.skip(j5 as int));
    }
    let (tagv, j6) = match parse_qstring(v, j5) {
        Some(p) => p,
        None => {
            return None;
        },
    };
    let st = match status_of_chars(&tagv) {
        Some(st) => st,
        None => {
            return None;
        },
    };
    let l4 = lit_created_vec();
    let j7 = match eat(v, j6, &l4) {
        Some(j) => j,
        None => {
            return None;
        },
    };
    proof {
        assert(v@.skip(j6 as int).skip(lit_created().len() as int) =~= v@.skip(j7 as int));
    }
    let (cav, j8) = match parse_num(v, j7) {
        Some(p) => p,
        None => {
            return None;
        },
    };
    let l5 = lit_updated_vec();
    let j9 = match eat(v, j8, &l5) {
        Some(j) => j,
        None => {
            return None;
        },
    };
    proof {
        assert(v@.skip(j8 as int).skip(lit_updated().len() as int) =~= v@.skip(j9 as int));
    }
    let (uav, j10) = match parse_num(v, j9) {
        Some(p) => p,
        None => {
            return None;
        },
    };
    if j10 == v.len() {
        proof {
            assert(v@.skip(j10 as int).len() == 0);
        }
        return None;
    }
    proof {
        assert(v@.skip(j10 as int)[0] == v@[j10 as int]);
    }
    if v[j10] != '}' {
        return None;
    }
    let t = Task {
        id: idv as u32,
        description: chars_to_string(&desc),
        status: st,
        created_at: cav,
        updated_at: uav,
    };
    proof {
        assert(v@.skip(j10 as int).drop_first() =~= v@.skip(j10 + 1));
        assert(sp_record(s) == Some((t@, v@.skip(j10 + 1))));
    }
    Some((t, j10 + 1))
}

/// Parses a whole text as a task collection, as `spec_parse` reads
/// it: an empty text or the empty array is the empty collection;
/// anything that is not exactly a bracketed record list is corrupt.
pub(crate) fn parse_tasks(data: &str) -> (r: Result<Vec<Task>, StoreError>)
    ensures
        match r {
            Ok(tasks) => spec_parse(data@) == Some(views_of(tasks@)),
            Err(e) => e == StoreError::Corrupt && spec_parse(data@) is None,
        },
{
    let v = str_to_chars(data);
    if v.len() == 0 {
        let tasks: Vec<Task> = Vec::new();
        proof {
            assert(views_of(tasks@) =~= Seq::<TaskView>::empty());
        }
        return Ok(tasks);
    }
    if v.len() == 2 && v[0] == '[' && v[1] == ']' {
        let tasks: Vec<Task> = Vec::new();
        proof {
            assert(views_of(tasks@) =~= Seq::<TaskView>::empty());
        }
        return Ok(tasks);
    }
    if v[0] != '[' {
        return Err(StoreError::Corrupt);
    }
    let ghost s0 = v@.skip(1);
    let ghost fuel0 = v@.len() as nat;
    let mut tasks: Vec<Task> = Vec::new();
    let mut i: usize = 1;
    let ghost mut fuel: nat = fuel0;
    loop
        invariant
            1 <= i <= v@.len(),
            fuel + i > v@.len(),
            v@.len() >= 1,
            v@[0] == '[',
            v@ == data@,
            s0 == v@.skip(1),
            fuel0 == v@.len() as nat,
            !(v@.len() == 2 && v@[0] == '[' && v@[1] == ']'),
            match sp_tasks(v@.skip(i as int), fuel) {
                None => sp_tasks(s0, fuel0) is None,
                Some(p) => sp_tasks(s0, fuel0) == Some((views_of(tasks@) + p.0, p.1)),
            },
        decreases v@.len() - i,
    {
        proof {
            assert(fuel > 0);
        }
        match parse_record(&v, i) {
            None => {
                proof {
                    assert(sp_tasks(v@.skip(i as int), fuel) is None);
                }
                return Err(StoreError::Corrupt);
            },
            Some((t, j)) => {
                if j == v.len() {
                    proof {
                        assert(v@.skip(j as int).len() == 0);
                        assert(sp_tasks(v@.skip(i as int), fuel) is None);
                    }
                    return Err(StoreError::Corrupt);
                }
                let c = v[j];
                proof {
                    assert(v@.skip(j as int)[0] == v@[j as int]);
                }
                if c == ']' {
                    let ghost ts0 = views_of(tasks@);
                    tasks.push(t);
                    proof {
                        assert(v@.skip(j as int).drop_first() =~= v@.skip(j + 1));
                        assert(sp_tasks(v@.skip(i as int), fuel) == Some(
                            (seq![t@], v@.skip(j + 1)),
                        ));
                        assert(views_of(tasks@) =~= ts0 + seq![t@]);
                    }
                    if j + 1 == v.len() {
                        proof {
                            assert(v@.skip(j + 1).len() == 0);
                            assert(sp_tasks(s0, fuel0) == Some(
                                (views_of(tasks@), v@.skip(j + 1)),
                            ));
                        }
                        return Ok(tasks);
                    } else {
                        proof {
                            assert(v@.skip(j + 1).len() > 0);
                        }
                        return Err(StoreError::Corrupt);
                    }
                } else if c == ',' {
                    let ghost ts0 = views_of(tasks@);
                    tasks.push(t);
                    proof {
                        assert(v@.skip(j as int).drop_first() =~= v@.skip(j + 1));
                        assert(views_of(tasks@) =~= ts0 + seq![t@]);
                        let nxt = sp_tasks(v@.skip(j + 1), (fuel - 1) as nat);
                        if nxt is Some {
                            let p = nxt->Some_0;
                            assert(sp_tasks(v@.skip(i as int), fuel) == Some(
                                (seq![t@] + p.0, p.1),
                            ));
                            lemma_assoc(ts0, seq![t@], p.0);
                        } else {
                            assert(sp_tasks(v@.skip(i as int), fuel) is None);
                        }
                    }
                    i = j + 1;
                    proof {
                        fuel = (fuel - 1) as nat;
                    }
                } else {
                    proof {
                        assert(sp_tasks(v@.skip(i as int), fuel) is None);
                    }
                    return Err(StoreError::Corrupt);
                }
            },
        }
    }
}

} // verus!
