//! The structured text form of a record collection.
//!
//! A collection is written as a compact JSON-style array: each record is
//! an object with the fields `id`, `title`, `description`, `status`,
//! `priority` and `created`, in that order, with no whitespace. String
//! values escape `"` and `\` with a backslash and keep every other
//! character as it is. The spec function [`json_of`] defines the encoded
//! text exactly; [`encode_records`] produces it.

use vstd::prelude::*;

use crate::record::{Status, Priority, Todo, TodoView, views};

verus! {

/// Relies on `String::push`: appends exactly the one character.
#[verifier::external_body]
pub(crate) fn push_char(out: &mut String, c: char)
    ensures
        final(out)@ == old(out)@.push(c),
{
    out.push(c);
}

pub open spec fn is_digit_char(c: char) -> bool {
    c == '0' || c == '1' || c == '2' || c == '3' || c == '4' || c == '5' || c == '6' || c == '7'
        || c == '8' || c == '9'
}

pub open spec fn digit_char(d: int) -> char {
    if d == 0 {
        '0'
    } else if d == 1 {
        '1'
    } else if d == 2 {
        '2'
    } else if d == 3 {
        '3'
    } else if d == 4 {
        '4'
    } else if d == 5 {
        '5'
    } else if d == 6 {
        '6'
    } else if d == 7 {
        '7'
    } else if d == 8 {
        '8'
    } else {
        '9'
    }
}

pub open spec fn digit_val(c: char) -> int {
    if c == '0' {
        0
    } else if c == '1' {
        1
    } else if c == '2' {
        2
    } else if c == '3' {
        3
    } else if c == '4' {
        4
    } else if c == '5' {
        5
    } else if c == '6' {
        6
    } else if c == '7' {
        7
    } else if c == '8' {
        8
    } else {
        9
    }
}

/// The decimal digits of a non-negative number, no leading zero.
pub open spec fn dec_rec(n: int) -> Seq<char>
    decreases n,
{
    if n <= 9 {
        seq![digit_char(n)]
    } else {
        dec_rec(n / 10).push(digit_char(n % 10))
    }
}

/// The number a digit sequence denotes.
pub open spec fn val_of(ds: Seq<char>) -> int
    decreases ds.len(),
{
    if ds.len() == 0 {
        0
    } else {
        val_of(ds.drop_last()) * 10 + digit_val(ds.last())
    }
}

pub open spec fn pow10(k: int) -> int
    decreases k,
{
    if k <= 0 {
        1
    } else {
        10 * pow10(k - 1)
    }
}

/// Shape of a decimal encoding: at least one digit, digits only, a
/// leading zero only for zero itself, and it denotes the number.
pub proof fn lemma_dec_rec_shape(n: int)
    requires
        n >= 0,
    ensures
        dec_rec(n).len() >= 1,
        forall|k: int| 0 <= k < dec_rec(n).len() ==> is_digit_char(#[trigger] dec_rec(n)[k]),
        (dec_rec(n)[0] == '0' <==> n == 0),
        val_of(dec_rec(n)) == n,
    decreases n,
{
    if n <= 9 {
        assert(dec_rec(n) =~= seq![digit_char(n)]);
        assert(dec_rec(n).drop_last() =~= Seq::<char>::empty());
        assert(val_of(Seq::<char>::empty()) == 0);
        assert(dec_rec(n).last() == digit_char(n));
        assert(val_of(dec_rec(n)) == val_of(dec_rec(n).drop_last()) * 10 + digit_val(
            dec_rec(n).last(),
        ));
        assert(digit_val(digit_char(n)) == n);
    } else {
        lemma_dec_rec_shape(n / 10);
        let prefix = dec_rec(n / 10);
        let whole = dec_rec(n);
        assert(whole =~= prefix.push(digit_char(n % 10)));
        assert(whole.drop_last() =~= prefix);
        assert(whole.last() == digit_char(n % 10));
        assert(val_of(whole) == val_of(prefix) * 10 + digit_val(digit_char(n % 10)));
        assert(n / 10 >= 1);
        assert(whole[0] == prefix[0]);
        assert forall|k: int| 0 <= k < whole.len() implies is_digit_char(#[trigger] whole[k]) by {
            if k < prefix.len() {
                assert(whole[k] == prefix[k]);
            }
        }
    }
}

/// A digit sequence denotes something below `pow10` of its length.
pub proof fn lemma_val_of_bound(ds: Seq<char>)
    requires
        forall|k: int| 0 <= k < ds.len() ==> is_digit_char(#[trigger] ds[k]),
    ensures
        0 <= val_of(ds) < pow10(ds.len() as int),
    decreases ds.len(),
{
    if ds.len() > 0 {
        lemma_val_of_bound(ds.drop_last());
        assert(forall|k: int|
            0 <= k < ds.drop_last().len() ==> #[trigger] ds.drop_last()[k] == ds[k]);
        assert(digit_val(ds.last()) <= 9);
    }
}

/// A decimal encoding of a number below `pow10(k)` has at most `k` digits.
pub proof fn lemma_dec_rec_len(n: int, k: int)
    requires
        0 <= n < pow10(k),
        k >= 1,
    ensures
        dec_rec(n).len() <= k,
    decreases n,
{
    if n <= 9 {
    } else {
        assert(k >= 2) by {
            if k == 1 {
                assert(pow10(0) == 1);
                assert(pow10(1) == 10);
            }
        }
        assert(n / 10 < pow10(k - 1)) by {
            assert(pow10(k) == 10 * pow10(k - 1));
            assert(n < 10 * pow10(k - 1));
            assert(n / 10 < pow10(k - 1)) by (nonlinear_arith)
                requires
                    n >= 0,
                    pow10(k - 1) > 0,
                    n < 10 * pow10(k - 1),
            ;
        }
        assert(pow10(k - 1) > 0) by {
            lemma_pow10_pos(k - 1);
        }
        lemma_dec_rec_len(n / 10, k - 1);
        assert(dec_rec(n) =~= dec_rec(n / 10).push(digit_char(n % 10)));
    }
}

pub proof fn lemma_pow10_pos(k: int)
    ensures
        pow10(k) >= 1,
    decreases k,
{
    if k > 0 {
        lemma_pow10_pos(k - 1);
    }
}

/// How one character is written inside a quoted string.
pub open spec fn esc_char(c: char) -> Seq<char> {
    if c == '"' || c == '\\' {
        seq!['\\', c]
    } else {
        seq![c]
    }
}

/// The escaped body of a quoted string.
pub open spec fn esc_str(v: Seq<char>) -> Seq<char>
    decreases v.len(),
{
    if v.len() == 0 {
        Seq::<char>::empty()
    } else {
        esc_char(v[0]) + esc_str(v.drop_first())
    }
}

/// A quoted string: `"` then the escaped body then `"`.
pub open spec fn quoted(v: Seq<char>) -> Seq<char> {
    seq!['"'] + esc_str(v) + seq!['"']
}

/// Escaping distributes over appending one character at the end.
pub proof fn lemma_esc_str_push(v: Seq<char>, c: char)
    ensures
        esc_str(v.push(c)) == esc_str(v) + esc_char(c),
    decreases v.len(),
{
    if v.len() == 0 {
        assert(v.push(c)[0] == c);
        assert(v.push(c).drop_first() =~= Seq::<char>::empty());
        assert(esc_str(Seq::<char>::empty()) == Seq::<char>::empty());
        assert(esc_str(v.push(c)) == esc_char(c) + esc_str(Seq::<char>::empty()));
        assert(esc_str(v) == Seq::<char>::empty());
        assert(esc_str(v.push(c)) =~= esc_str(v) + esc_char(c));
    } else {
        assert(v.push(c).drop_first() =~= v.drop_first().push(c));
        lemma_esc_str_push(v.drop_first(), c);
        assert(esc_str(v.push(c)) == esc_char(v[0]) + esc_str(v.drop_first().push(c)));
        assert(esc_str(v.push(c)) =~= esc_str(v) + esc_char(c));
    }
}

/// The stored name of a completion state.
pub open spec fn status_name(st: Status) -> Seq<char> {
    match st {
        Status::Completed => "Completed"@,
        Status::NotCompleted => "NotCompleted"@,
    }
}

/// The stored name of a priority level.
pub open spec fn priority_name(p: Priority) -> Seq<char> {
    match p {
        Priority::High => "High"@,
        Priority::Medium => "Medium"@,
        Priority::Low => "Low"@,
    }
}

/// The field markers of an encoded record, in the order they occur.
pub open spec fn l_id() -> Seq<char> {
    "{\"id\":"@
}

pub open spec fn l_title() -> Seq<char> {
    ",\"title\":"@
}

pub open spec fn l_desc() -> Seq<char> {
    ",\"description\":"@
}

pub open spec fn l_status() -> Seq<char> {
    ",\"status\":"@
}

pub open spec fn l_pri() -> Seq<char> {
    ",\"priority\":"@
}

pub open spec fn l_created() -> Seq<char> {
    ",\"created\":"@
}

pub open spec fn l_close() -> Seq<char> {
    "}"@
}

/// The encoded text of one record.
pub open spec fn record_enc(t: TodoView) -> Seq<char> {
    l_id() + dec_rec(t.id as int) + l_title() + quoted(t.title) + l_desc() + quoted(t.description)
        + l_status() + quoted(status_name(t.status)) + l_pri() + quoted(priority_name(t.priority))
        + l_created() + quoted(t.created) + l_close()
}

/// The lengths and lead characters of the field markers and names; the
/// decoder steers by these.
pub proof fn lemma_lit_facts()
    ensures
        l_id().len() == 6 && l_id()[0] == '{',
        l_title().len() == 9 && l_title()[0] == ',',
        l_desc().len() == 15 && l_desc()[0] == ',',
        l_status().len() == 10 && l_status()[0] == ',',
        l_pri().len() == 12 && l_pri()[0] == ',',
        l_created().len() == 11 && l_created()[0] == ',',
        l_close().len() == 1 && l_close()[0] == '}',
        status_name(Status::Completed).len() == 9,
        status_name(Status::NotCompleted).len() == 12,
        priority_name(Priority::High).len() == 4,
        priority_name(Priority::Medium).len() == 6,
        priority_name(Priority::Low).len() == 3,
{
    reveal_strlit("{\"id\":");
    reveal_strlit(",\"title\":");
    reveal_strlit(",\"description\":");
    reveal_strlit(",\"status\":");
    reveal_strlit(",\"priority\":");
    reveal_strlit(",\"created\":");
    reveal_strlit("}");
    reveal_strlit("Completed");
    reveal_strlit("NotCompleted");
    reveal_strlit("High");
    reveal_strlit("Medium");
    reveal_strlit("Low");
}

/// The encoded records, comma-separated.
pub open spec fn records_enc(c: Seq<TodoView>) -> Seq<char>
    decreases c.len(),
{
    if c.len() == 0 {
        Seq::<char>::empty()
    } else if c.len() == 1 {
        record_enc(c[0])
    } else {
        record_enc(c[0]) + seq![','] + records_enc(c.drop_first())
    }
}

/// The whole structured text: the records inside square brackets.
pub open spec fn json_of(c: Seq<TodoView>) -> Seq<char> {
    seq!['['] + records_enc(c) + seq![']']
}

/// The comma-separated form grows at the end one record at a time.
pub proof fn lemma_records_enc_push(c: Seq<TodoView>, t: TodoView)
    ensures
        c.len() == 0 ==> records_enc(c.push(t)) == record_enc(t),
        c.len() >= 1 ==> records_enc(c.push(t)) == records_enc(c) + seq![','] + record_enc(t),
    decreases c.len(),
{
    if c.len() == 0 {
        assert(c.push(t)[0] == t);
        assert(records_enc(c.push(t)) == record_enc(t));
    } else {
        assert(c.push(t).drop_first() =~= c.drop_first().push(t));
        lemma_records_enc_push(c.drop_first(), t);
        if c.len() == 1 {
            assert(records_enc(c.push(t)) == record_enc(c[0]) + seq![','] + records_enc(
                c.drop_first().push(t),
            ));
            assert(records_enc(c.push(t)) =~= records_enc(c) + seq![','] + record_enc(t));
        } else {
            assert(records_enc(c.push(t)) =~= records_enc(c) + seq![','] + record_enc(t));
        }
    }
}

/// Appends the decimal digits of `n`.
pub fn push_dec(out: &mut String, n: u32)
    ensures
        final(out)@ == old(out)@ + dec_rec(n as int),
    decreases n,
{
    if n >= 10 {
        push_dec(out, n / 10);
        let d = n % 10;
        push_char(out, digit_to_char(d));
        proof {
            assert(dec_rec(n as int) == dec_rec(n as int / 10).push(digit_char(n as int % 10)));
            assert(final(out)@ =~= old(out)@ + dec_rec(n as int));
        }
    } else {
        push_char(out, digit_to_char(n));
        proof {
            assert(final(out)@ =~= old(out)@ + dec_rec(n as int));
        }
    }
}

pub fn digit_to_char(d: u32) -> (c: char)
    requires
        d < 10,
    ensures
        c == digit_char(d as int),
{
    match d {
        0 => '0',
        1 => '1',
        2 => '2',
        3 => '3',
        4 => '4',
        5 => '5',
        6 => '6',
        7 => '7',
        8 => '8',
        _ => '9',
    }
}

/// Appends the quoted, escaped form of `s`.
pub fn push_quoted(out: &mut String, s: &str)
    ensures
        final(out)@ == old(out)@ + quoted(s@),
{
    push_char(out, '"');
    let n = s.unicode_len();
    let mut k: usize = 0;
    proof {
        assert(s@.take(0) =~= Seq::<char>::empty());
        assert(out@ =~= old(out)@ + seq!['"'] + esc_str(s@.take(0)));
    }
    while k < n
        invariant
            n == s@.len(),
            k <= n,
            out@ == old(out)@ + seq!['"'] + esc_str(s@.take(k as int)),
        decreases n - k,
    {
        let c = s.get_char(k);
        if c == '"' || c == '\\' {
            push_char(out, '\\');
        }
        push_char(out, c);
        proof {
            assert(s@.take(k + 1) =~= s@.take(k as int).push(s@[k as int]));
            lemma_esc_str_push(s@.take(k as int), s@[k as int]);
            assert(out@ =~= old(out)@ + seq!['"'] + esc_str(s@.take(k + 1)));
        }
        k += 1;
    }
    push_char(out, '"');
    proof {
        assert(s@.take(n as int) =~= s@);
        assert(out@ =~= old(out)@ + quoted(s@));
    }
}

/// Appends the encoded text of one record.
pub fn push_record(out: &mut String, t: &Todo)
    ensures
        final(out)@ == old(out)@ + record_enc(t@),
{
    out.append("{\"id\":");
    push_dec(out, t.id);
    out.append(",\"title\":");
    push_quoted(out, t.title.as_str());
    out.append(",\"description\":");
    push_quoted(out, t.description.as_str());
    out.append(",\"status\":");
    match t.status {
        Status::Completed => push_quoted(out, "Completed"),
        Status::NotCompleted => push_quoted(out, "NotCompleted"),
    }
    out.append(",\"priority\":");
    match t.priority {
        Priority::High => push_quoted(out, "High"),
        Priority::Medium => push_quoted(out, "Medium"),
        Priority::Low => push_quoted(out, "Low"),
    }
    out.append(",\"created\":");
    push_quoted(out, t.created.as_str());
    out.append("}");
    proof {
        assert(final(out)@ =~= old(out)@ + record_enc(t@));
    }
}

/// Encodes the whole collection as the structured text [`json_of`].
pub fn encode_records(todos: &Vec<Todo>) -> (r: String)
    ensures
        r@ == json_of(views(todos@)),
{
    let ghost v = views(todos@);
    let mut out = String::new();
    push_char(&mut out, '[');
    let mut k: usize = 0;
    proof {
        assert(v.take(0) =~= Seq::<TodoView>::empty());
        assert(out@ =~= seq!['['] + records_enc(v.take(0)));
    }
    while k < todos.len()
        invariant
            k <= todos@.len(),
            v == views(todos@),
            out@ == seq!['['] + records_enc(v.take(k as int)),
        decreases todos@.len() - k,
    {
        if k > 0 {
            push_char(&mut out, ',');
        }
        push_record(&mut out, &todos[k]);
        proof {
            assert(v.take(k + 1) =~= v.take(k as int).push(v[k as int]));
            assert(todos@[k as int]@ == v[k as int]);
            lemma_records_enc_push(v.take(k as int), v[k as int]);
            assert(out@ =~= seq!['['] + records_enc(v.take(k + 1)));
        }
        k += 1;
    }
    push_char(&mut out, ']');
    proof {
        assert(v.take(v.len() as int) =~= v);
        assert(out@ =~= json_of(v));
    }
    out
}

} // verus!
