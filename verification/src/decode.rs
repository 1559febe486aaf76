//! The strict decoder for the structured text of [`crate::codec`].
//!
//! The decoder accepts exactly the canonical texts that [`crate::codec::json_of`]
//! describes and nothing else, so decoding reverses encoding precisely.
//! Each parsing function carries two contracts: on success the consumed
//! span is the canonical encoding of the value it returns, and whenever a
//! canonical encoding starts at the given position the function succeeds
//! and returns exactly that value.

use vstd::prelude::*;

use crate::codec::{
    dec_rec, digit_char, push_char, digit_val, esc_char, esc_str, is_digit_char, json_of,
    l_close, l_created, l_desc, l_id, l_pri, l_status, l_title, lemma_dec_rec_len,
    lemma_dec_rec_shape, lemma_lit_facts, lemma_pow10_pos, lemma_val_of_bound, pow10,
    priority_name, quoted, record_enc, records_enc, status_name, val_of,
};
use crate::record::{Priority, Status, Todo, TodoView, views};

verus! {

/// The pattern occurs in `s` starting at position `i`.
pub open spec fn matches_at(s: Seq<char>, i: int, pat: Seq<char>) -> bool {
    0 <= i && i + pat.len() <= s.len() && (forall|k: int|
        0 <= k < pat.len() ==> s[i + k] == #[trigger] pat[k])
}

/// A concatenated pattern occurs exactly when its parts occur in order.
pub proof fn lemma_matches_concat(s: Seq<char>, i: int, a: Seq<char>, b: Seq<char>)
    ensures
        matches_at(s, i, a + b) <==> (matches_at(s, i, a) && matches_at(s, i + a.len(), b)),
{
    if matches_at(s, i, a + b) {
        assert forall|k: int| 0 <= k < a.len() implies s[i + k] == #[trigger] a[k] by {
            assert((a + b)[k] == a[k]);
            assert(s[i + k] == (a + b)[k]);
        }
        assert forall|k: int| 0 <= k < b.len() implies s[(i + a.len()) + k] == #[trigger] b[k] by {
            assert((a + b)[a.len() + k] == b[k]);
            assert(s[i + (a.len() + k)] == (a + b)[a.len() + k]);
            assert(i + (a.len() + k) == (i + a.len()) + k);
        }
    }
    if matches_at(s, i, a) && matches_at(s, i + a.len(), b) {
        assert forall|k: int| 0 <= k < (a + b).len() implies s[i + k] == #[trigger] (a + b)[k] by {
            if k < a.len() {
                assert((a + b)[k] == a[k]);
            } else {
                assert((a + b)[k] == b[k - a.len()]);
                assert(s[(i + a.len()) + (k - a.len())] == b[k - a.len()]);
                assert(i + k == (i + a.len()) + (k - a.len()));
            }
        }
    }
}

/// Whether `c` is a decimal digit, as executable code.
pub fn is_digit(c: char) -> (r: bool)
    ensures
        r == is_digit_char(c),
{
    c == '0' || c == '1' || c == '2' || c == '3' || c == '4' || c == '5' || c == '6' || c == '7'
        || c == '8' || c == '9'
}

/// The value of a digit, as executable code.
pub fn char_digit(c: char) -> (r: u64)
    requires
        is_digit_char(c),
    ensures
        r == digit_val(c),
        r < 10,
{
    if c == '0' {
        0
    } else if c == '1' {
        1
    } else if c == '2' {
        2
    } else if c == '3' {
        3
    } else if c == '4' {
        4
    } else if c == '5' {
        5
    } else if c == '6' {
        6
    } else if c == '7' {
        7
    } else if c == '8' {
        8
    } else {
        9
    }
}

/// Tests whether the literal occurs in `s` at position `i`.
pub fn expect_lit(s: &str, n: usize, i: usize, lit: &str) -> (r: bool)
    requires
        n == s@.len(),
        i <= n,
    ensures
        r == matches_at(s@, i as int, lit@),
{
    let m = lit.unicode_len();
    if m > n - i {
        return false;
    }
    let mut k: usize = 0;
    while k < m
        invariant
            n == s@.len(),
            m == lit@.len(),
            i + m <= n,
            k <= m,
            forall|j: int| 0 <= j < k ==> s@[i + j] == #[trigger] lit@[j],
        decreases m - k,
    {
        if s.get_char(i + k) != lit.get_char(k) {
            proof {
                assert(!matches_at(s@, i as int, lit@)) by {
                    if matches_at(s@, i as int, lit@) {
                        assert(s@[i + k] == lit@[k as int]);
                    }
                }
            }
            return false;
        }
        k += 1;
    }
    true
}

/// The exact value of each small power of ten the decoder relies on.
pub proof fn lemma_pow10_vals()
    ensures
        pow10(9) == 1000000000,
        pow10(10) == 10000000000,
{
    assert(pow10(0) == 1);
    assert(pow10(1) == 10);
    assert(pow10(2) == 100);
    assert(pow10(3) == 1000);
    assert(pow10(4) == 10000);
    assert(pow10(5) == 100000);
    assert(pow10(6) == 1000000);
    assert(pow10(7) == 10000000);
    assert(pow10(8) == 100000000);
    assert(pow10(9) == 1000000000);
    assert(pow10(10) == 10000000000);
}

/// A maximal digit run containing a canonical decimal encoding is that
/// encoding: the run and the encoding have the same extent.
proof fn lemma_dec_run_pin(s: Seq<char>, i: int, j: int, m: int)
    requires
        0 <= i <= j <= s.len(),
        forall|k: int| i <= k < j ==> is_digit_char(#[trigger] s[k]),
        j == s.len() || !is_digit_char(s[j]),
        m >= 0,
        matches_at(s, i, dec_rec(m)),
        i + dec_rec(m).len() == s.len() || !is_digit_char(s[i + dec_rec(m).len()]),
    ensures
        dec_rec(m) == s.subrange(i, j),
        j == i + dec_rec(m).len(),
{
    lemma_dec_rec_shape(m);
    let l = dec_rec(m).len() as int;
    if i + l < j {
        assert(is_digit_char(s[i + l]));
        assert(i + l < s.len());
        assert(false);
    }
    if i + l > j {
        assert(j < s.len());
        assert(j - i < l);
        assert(s[i + (j - i)] == dec_rec(m)[j - i]);
        assert(is_digit_char(dec_rec(m)[j - i]));
        assert(false);
    }
    assert(dec_rec(m) =~= s.subrange(i, j));
}

/// Parses a canonical decimal number at position `i`.
pub fn parse_dec(s: &str, n: usize, i: usize) -> (r: Option<(u32, usize)>)
    requires
        n == s@.len(),
        i <= n,
    ensures
        r matches Some(p) ==> i < p.1 <= n && p.1 == i + dec_rec(p.0 as int).len() && matches_at(
            s@,
            i as int,
            dec_rec(p.0 as int),
        ) && (p.1 == n || !is_digit_char(s@[p.1 as int])),
        forall|m: u32|
            (matches_at(s@, i as int, dec_rec(m as int)) && (i + dec_rec(m as int).len() == n
                || !is_digit_char(s@[i + dec_rec(m as int).len()]))) ==> (r matches Some(p)
                && p.0 == m && p.1 == i + dec_rec(m as int).len()),
{
    let mut j: usize = i;
    while j < n && is_digit(s.get_char(j))
        invariant
            n == s@.len(),
            i <= j <= n,
            forall|k: int| i <= k < j ==> is_digit_char(#[trigger] s@[k]),
        decreases n - j,
    {
        j += 1;
    }
    proof {
        assert(j == n || !is_digit_char(s@[j as int]));
    }
    if j == i {
        proof {
            assert forall|m: u32|
                !(matches_at(s@, i as int, dec_rec(m as int)) && (i + dec_rec(m as int).len() == n
                    || !is_digit_char(s@[i + dec_rec(m as int).len()]))) by {
                if matches_at(s@, i as int, dec_rec(m as int)) {
                    lemma_dec_rec_shape(m as int);
                    assert(s@[i + 0] == dec_rec(m as int)[0]);
                    assert(is_digit_char(s@[i as int]));
                    assert(i < n);
                }
            }
        }
        return None;
    }
    if s.get_char(i) == '0' && j > i + 1 {
        proof {
            assert forall|m: u32|
                !(matches_at(s@, i as int, dec_rec(m as int)) && (i + dec_rec(m as int).len() == n
                    || !is_digit_char(s@[i + dec_rec(m as int).len()]))) by {
                if matches_at(s@, i as int, dec_rec(m as int)) && (i + dec_rec(m as int).len() == n
                    || !is_digit_char(s@[i + dec_rec(m as int).len()])) {
                    lemma_dec_rec_shape(m as int);
                    assert(s@[i + 0] == dec_rec(m as int)[0]);
                    assert(dec_rec(m as int)[0] == '0');
                    assert(m == 0);
                    assert(dec_rec(0).len() == 1);
                    assert(is_digit_char(s@[i + 1]));
                    assert(i + 1 < n);
                }
            }
        }
        return None;
    }
    if j - i > 10 {
        proof {
            assert forall|m: u32|
                !(matches_at(s@, i as int, dec_rec(m as int)) && (i + dec_rec(m as int).len() == n
                    || !is_digit_char(s@[i + dec_rec(m as int).len()]))) by {
                if matches_at(s@, i as int, dec_rec(m as int)) && (i + dec_rec(m as int).len() == n
                    || !is_digit_char(s@[i + dec_rec(m as int).len()])) {
                    lemma_dec_run_pin(s@, i as int, j as int, m as int);
                    lemma_pow10_vals();
                    lemma_dec_rec_len(m as int, 10);
                }
            }
        }
        return None;
    }
    let mut val: u64 = 0;
    let mut k: usize = i;
    proof {
        assert(s@.subrange(i as int, i as int) =~= Seq::<char>::empty());
        lemma_pow10_vals();
    }
    while k < j
        invariant
            n == s@.len(),
            i <= k <= j <= n,
            j - i <= 10,
            forall|q: int| i <= q < j ==> is_digit_char(#[trigger] s@[q]),
            val == val_of(s@.subrange(i as int, k as int)),
            0 <= val < pow10(k - i),
            pow10(9) == 1000000000,
            pow10(10) == 10000000000,
        decreases j - k,
    {
        let c = s.get_char(k);
        let d = char_digit(c);
        proof {
            assert(s@.subrange(i as int, k + 1).drop_last() =~= s@.subrange(i as int, k as int));
            assert(s@.subrange(i as int, k + 1).last() == s@[k as int]);
            assert(pow10(k + 1 - i) == 10 * pow10(k - i));
            lemma_pow10_mono(k - i, 9);
            assert(val * 10 + d < 10 * pow10(k - i));
        }
        val = val * 10 + d;
        k += 1;
    }
    if val > (u32::MAX as u64) {
        proof {
            assert forall|m: u32|
                !(matches_at(s@, i as int, dec_rec(m as int)) && (i + dec_rec(m as int).len() == n
                    || !is_digit_char(s@[i + dec_rec(m as int).len()]))) by {
                if matches_at(s@, i as int, dec_rec(m as int)) && (i + dec_rec(m as int).len() == n
                    || !is_digit_char(s@[i + dec_rec(m as int).len()])) {
                    lemma_dec_run_pin(s@, i as int, j as int, m as int);
                    lemma_dec_rec_shape(m as int);
                    assert(val == val_of(dec_rec(m as int)));
                }
            }
        }
        return None;
    }
    proof {
        lemma_val_of_bound(s@.subrange(i as int, j as int));
        assert forall|m: u32|
            (matches_at(s@, i as int, dec_rec(m as int)) && (i + dec_rec(m as int).len() == n
                || !is_digit_char(s@[i + dec_rec(m as int).len()]))) implies (val == m && j == i
            + dec_rec(m as int).len()) by {
            lemma_dec_run_pin(s@, i as int, j as int, m as int);
            lemma_dec_rec_shape(m as int);
            assert(val == val_of(dec_rec(m as int)));
        }
        // soundness: the run is the canonical encoding of `val`
        lemma_dec_rec_shape(val as int);
        lemma_canonical_digits(s@.subrange(i as int, j as int));
        assert(dec_rec(val as int) == s@.subrange(i as int, j as int));
        assert forall|k2: int| 0 <= k2 < (j - i) implies s@[i + k2] == #[trigger] dec_rec(
            val as int,
        )[k2] by {
            assert(dec_rec(val as int)[k2] == s@.subrange(i as int, j as int)[k2]);
        }
    }
    Some((val as u32, j))
}

/// A digit run with no leading zero is the canonical encoding of its value.
proof fn lemma_canonical_digits(ds: Seq<char>)
    requires
        ds.len() >= 1,
        forall|k: int| 0 <= k < ds.len() ==> is_digit_char(#[trigger] ds[k]),
        ds[0] == '0' ==> ds.len() == 1,
    ensures
        dec_rec(val_of(ds)) == ds,
    decreases ds.len(),
{
    lemma_val_of_bound(ds);
    if ds.len() == 1 {
        assert(ds.drop_last() =~= Seq::<char>::empty());
        assert(val_of(Seq::<char>::empty()) == 0);
        assert(ds.last() == ds[0]);
        assert(val_of(ds) == digit_val(ds[0]));
        assert(dec_rec(val_of(ds)) =~= ds);
    } else {
        let pre = ds.drop_last();
        assert(forall|k: int| 0 <= k < pre.len() ==> #[trigger] pre[k] == ds[k]);
        assert(pre[0] != '0');
        lemma_canonical_digits(pre);
        let v = val_of(ds);
        assert(v == val_of(pre) * 10 + digit_val(ds.last()));
        lemma_val_positive(pre);
        assert(val_of(pre) >= 1);
        assert(v >= 10);
        assert(v / 10 == val_of(pre) && v % 10 == digit_val(ds.last())) by (nonlinear_arith)
            requires
                v == val_of(pre) * 10 + digit_val(ds.last()),
                0 <= digit_val(ds.last()) < 10,
                val_of(pre) >= 0,
        ;
        assert(dec_rec(v) == dec_rec(v / 10).push(digit_char(v % 10)));
        assert(digit_char(digit_val(ds.last())) == ds.last());
        assert(dec_rec(v) =~= ds);
    }
}

/// A digit run that does not start with zero denotes a positive number.
proof fn lemma_val_positive(ds: Seq<char>)
    requires
        ds.len() >= 1,
        forall|k: int| 0 <= k < ds.len() ==> is_digit_char(#[trigger] ds[k]),
        ds[0] != '0',
    ensures
        val_of(ds) >= 1,
    decreases ds.len(),
{
    if ds.len() == 1 {
        assert(digit_val(ds[0]) >= 1);
        assert(ds.drop_last() =~= Seq::<char>::empty());
        assert(val_of(Seq::<char>::empty()) == 0);
        assert(ds.last() == ds[0]);
        assert(val_of(ds) == digit_val(ds[0]));
    } else {
        let pre = ds.drop_last();
        assert(forall|k: int| 0 <= k < pre.len() ==> #[trigger] pre[k] == ds[k]);
        lemma_val_positive(pre);
        assert(val_of(ds) == val_of(pre) * 10 + digit_val(ds.last()));
        assert(digit_val(ds.last()) >= 0);
    }
}

pub proof fn lemma_pow10_mono(a: int, b: int)
    requires
        a <= b,
    ensures
        pow10(a) <= pow10(b),
    decreases b - a,
{
    if a < b {
        lemma_pow10_mono(a, b - 1);
        lemma_pow10_pos(b - 1);
    }
}

/// What remains of a quoted string after its opening quote: the escaped
/// body followed by the closing quote.
pub open spec fn tail_pat(t: Seq<char>) -> Seq<char> {
    esc_str(t) + seq!['"']
}

/// Two string bodies whose encodings start at the same position are the
/// same body: the encoding is self-delimiting.
proof fn lemma_qtail_det(s: Seq<char>, p: int, t1: Seq<char>, t2: Seq<char>)
    requires
        matches_at(s, p, tail_pat(t1)),
        matches_at(s, p, tail_pat(t2)),
    ensures
        t1 == t2,
    decreases t1.len(),
{
    assert(s[p + 0] == tail_pat(t1)[0]);
    assert(s[p + 0] == tail_pat(t2)[0]);
    if t1.len() == 0 {
        assert(tail_pat(t1)[0] == '"');
        if t2.len() != 0 {
            assert(tail_pat(t2)[0] == esc_char(t2[0])[0]);
            assert(false);
        }
        assert(t1 =~= t2);
    } else if t2.len() == 0 {
        assert(tail_pat(t2)[0] == '"');
        assert(tail_pat(t1)[0] == esc_char(t1[0])[0]);
        assert(false);
    } else {
        let c1 = t1[0];
        let c2 = t2[0];
        assert(esc_str(t1) == esc_char(c1) + esc_str(t1.drop_first()));
        assert(esc_str(t2) == esc_char(c2) + esc_str(t2.drop_first()));
        assert(tail_pat(t1) =~= esc_char(c1) + tail_pat(t1.drop_first()));
        assert(tail_pat(t2) =~= esc_char(c2) + tail_pat(t2.drop_first()));
        lemma_matches_concat(s, p, esc_char(c1), tail_pat(t1.drop_first()));
        lemma_matches_concat(s, p, esc_char(c2), tail_pat(t2.drop_first()));
        if c1 == '"' || c1 == '\\' {
            assert(s[p + 0] == '\\');
            if !(c2 == '"' || c2 == '\\') {
                assert(s[p + 0] == c2);
                assert(false);
            }
            assert(s[p + 1] == c1);
            assert(s[p + 1] == c2);
            lemma_qtail_det(s, p + 2, t1.drop_first(), t2.drop_first());
        } else {
            assert(s[p + 0] == c1);
            if c2 == '"' || c2 == '\\' {
                assert(s[p + 0] == '\\');
                assert(false);
            }
            assert(s[p + 0] == c2);
            lemma_qtail_det(s, p + 1, t1.drop_first(), t2.drop_first());
        }
        assert(c1 == c2);
        assert(t1.drop_first() == t2.drop_first());
        assert(t1.len() == 1 + t1.drop_first().len());
        assert(t2.len() == 1 + t2.drop_first().len());
        assert forall|k: int| 0 <= k < t1.len() implies t1[k] == t2[k] by {
            if k == 0 {
            } else {
                assert(t1[k] == t1.drop_first()[k - 1]);
                assert(t2[k] == t2.drop_first()[k - 1]);
            }
        }
        assert(t1 =~= t2);
    }
}

/// Splices one consumed character into the accumulated-prefix view of a
/// recursive string-parse result.
proof fn lemma_qtail_extend(s: Seq<char>, p: int, accv: Seq<char>, c: char, a: Seq<char>)
    requires
        a.len() >= accv.len() + 1,
        a.take((accv.len() + 1) as int) == accv.push(c),
        matches_at(s, p + esc_char(c).len(), tail_pat(a.skip((accv.len() + 1) as int))),
        matches_at(s, p, esc_char(c)),
    ensures
        a.take(accv.len() as int) == accv,
        matches_at(s, p, tail_pat(a.skip(accv.len() as int))),
        tail_pat(a.skip(accv.len() as int)).len() == esc_char(c).len() + tail_pat(
            a.skip((accv.len() + 1) as int),
        ).len(),
{
    let al = accv.len() as int;
    let t = a.skip(al);
    let t2 = a.skip(al + 1);
    assert forall|k: int| 0 <= k < al implies a[k] == accv[k] by {
        assert(a.take(al + 1)[k] == accv.push(c)[k]);
    }
    assert(a.take(al) =~= accv);
    assert(a[al] == a.take(al + 1)[al]);
    assert(a[al] == c);
    assert(t.len() >= 1);
    assert(t[0] == c);
    assert(t.drop_first() =~= t2);
    assert(esc_str(t) == esc_char(c) + esc_str(t2));
    assert(tail_pat(t) =~= esc_char(c) + tail_pat(t2));
    lemma_matches_concat(s, p, esc_char(c), tail_pat(t2));
}

/// Parses the rest of a quoted string after the opening quote, having
/// already collected `acc`.
fn parse_qtail(s: &str, n: usize, p: usize, acc: String) -> (r: Option<(String, usize)>)
    requires
        n == s@.len(),
        p <= n,
    ensures
        r matches Some(q) ==> acc@.len() <= q.0@.len() && q.0@.take(acc@.len() as int) == acc@
            && q.1 <= n && q.1 == p + tail_pat(q.0@.skip(acc@.len() as int)).len() && matches_at(
            s@,
            p as int,
            tail_pat(q.0@.skip(acc@.len() as int)),
        ),
        r is None ==> forall|t: Seq<char>| !matches_at(s@, p as int, tail_pat(t)),
    decreases n - p,
{
    let ghost accv = acc@;
    if p >= n {
        proof {
            assert forall|t: Seq<char>| !matches_at(s@, p as int, tail_pat(t)) by {
                assert(tail_pat(t).len() >= 1);
            }
        }
        return None;
    }
    let c = s.get_char(p);
    if c == '"' {
        proof {
            let tail = accv.skip(accv.len() as int);
            assert(tail =~= Seq::<char>::empty());
            assert(esc_str(tail) == Seq::<char>::empty());
            assert(tail_pat(tail) =~= seq!['"']);
            assert(accv.take(accv.len() as int) =~= accv);
            assert(matches_at(s@, p as int, tail_pat(tail))) by {
                assert(tail_pat(tail)[0] == '"');
                assert(s@[p + 0] == '"');
            }
        }
        return Some((acc, p + 1));
    }
    if c == '\\' {
        if p + 1 >= n {
            proof {
                assert forall|t: Seq<char>| !matches_at(s@, p as int, tail_pat(t)) by {
                    if matches_at(s@, p as int, tail_pat(t)) {
                        if t.len() == 0 {
                            assert(tail_pat(t)[0] == '"');
                            assert(s@[p + 0] == '"');
                        } else {
                            assert(tail_pat(t)[0] == esc_char(t[0])[0]);
                            assert(s@[p + 0] == tail_pat(t)[0]);
                            assert(t[0] == '"' || t[0] == '\\');
                            assert(tail_pat(t).len() >= 3);
                        }
                    }
                }
            }
            return None;
        }
        let c2 = s.get_char(p + 1);
        if c2 == '"' || c2 == '\\' {
            let mut acc2 = acc;
            push_char(&mut acc2, c2);
            let res = parse_qtail(s, n, p + 2, acc2);
            match res {
                Some(q) => {
                    proof {
                        assert(esc_char(c2) == seq!['\\', c2]);
                        assert(matches_at(s@, p as int, esc_char(c2))) by {
                            assert(esc_char(c2)[0] == '\\');
                            assert(esc_char(c2)[1] == c2);
                            assert(s@[p + 0] == '\\');
                            assert(s@[p + 1] == c2);
                        }
                        lemma_qtail_extend(s@, p as int, accv, c2, q.0@);
                    }
                    return Some(q);
                },
                None => {
                    proof {
                        assert forall|t: Seq<char>| !matches_at(s@, p as int, tail_pat(t)) by {
                            if matches_at(s@, p as int, tail_pat(t)) {
                                if t.len() == 0 {
                                    assert(tail_pat(t)[0] == '"');
                                    assert(s@[p + 0] == '"');
                                } else {
                                    assert(tail_pat(t)[0] == esc_char(t[0])[0]);
                                    assert(s@[p + 0] == tail_pat(t)[0]);
                                    assert(t[0] == '"' || t[0] == '\\');
                                    assert(esc_char(t[0]) == seq!['\\', t[0]]);
                                    assert(tail_pat(t) =~= esc_char(t[0]) + tail_pat(
                                        t.drop_first(),
                                    ));
                                    lemma_matches_concat(
                                        s@,
                                        p as int,
                                        esc_char(t[0]),
                                        tail_pat(t.drop_first()),
                                    );
                                    assert(s@[p + 1] == t[0]);
                                    assert(t[0] == c2);
                                }
                            }
                        }
                    }
                    return None;
                },
            }
        } else {
            proof {
                assert forall|t: Seq<char>| !matches_at(s@, p as int, tail_pat(t)) by {
                    if matches_at(s@, p as int, tail_pat(t)) {
                        if t.len() == 0 {
                            assert(tail_pat(t)[0] == '"');
                            assert(s@[p + 0] == '"');
                        } else {
                            assert(tail_pat(t)[0] == esc_char(t[0])[0]);
                            assert(s@[p + 0] == tail_pat(t)[0]);
                            assert(t[0] == '"' || t[0] == '\\');
                            assert(esc_char(t[0]) == seq!['\\', t[0]]);
                            assert(tail_pat(t) =~= esc_char(t[0]) + tail_pat(t.drop_first()));
                            lemma_matches_concat(
                                s@,
                                p as int,
                                esc_char(t[0]),
                                tail_pat(t.drop_first()),
                            );
                            assert(s@[p + 1] == t[0]);
                        }
                    }
                }
            }
            return None;
        }
    }
    let mut acc2 = acc;
    push_char(&mut acc2, c);
    let res = parse_qtail(s, n, p + 1, acc2);
    match res {
        Some(q) => {
            proof {
                assert(esc_char(c) == seq![c]);
                assert(matches_at(s@, p as int, esc_char(c))) by {
                    assert(esc_char(c)[0] == c);
                    assert(s@[p + 0] == c);
                }
                lemma_qtail_extend(s@, p as int, accv, c, q.0@);
            }
            Some(q)
        },
        None => {
            proof {
                assert forall|t: Seq<char>| !matches_at(s@, p as int, tail_pat(t)) by {
                    if matches_at(s@, p as int, tail_pat(t)) {
                        if t.len() == 0 {
                            assert(tail_pat(t)[0] == '"');
                            assert(s@[p + 0] == '"');
                        } else {
                            assert(tail_pat(t)[0] == esc_char(t[0])[0]);
                            assert(s@[p + 0] == tail_pat(t)[0]);
                            if t[0] == '"' || t[0] == '\\' {
                                assert(s@[p + 0] == '\\');
                                assert(false);
                            }
                            assert(t[0] == c);
                            assert(esc_char(t[0]) == seq![t[0]]);
                            assert(tail_pat(t) =~= esc_char(t[0]) + tail_pat(t.drop_first()));
                            lemma_matches_concat(
                                s@,
                                p as int,
                                esc_char(t[0]),
                                tail_pat(t.drop_first()),
                            );
                        }
                    }
                }
            }
            None
        },
    }
}

/// Parses a quoted string at position `i`: on success the consumed span
/// is exactly `quoted` of the returned body, and whenever some quoted
/// body starts at `i` the parse succeeds with exactly that body.
pub fn parse_quoted(s: &str, n: usize, i: usize) -> (r: Option<(String, usize)>)
    requires
        n == s@.len(),
        i <= n,
    ensures
        r matches Some(p) ==> i < p.1 <= n && p.1 == i + quoted(p.0@).len() && matches_at(
            s@,
            i as int,
            quoted(p.0@),
        ),
        forall|w: Seq<char>|
            matches_at(s@, i as int, quoted(w)) ==> (r matches Some(p) && p.0@ == w && p.1 == i
                + quoted(w).len()),
{
    if i < n && s.get_char(i) == '"' {
        let res = parse_qtail(s, n, i + 1, String::new());
        match res {
            Some(q) => {
                proof {
                    let body = q.0@;
                    assert(body.take(0) =~= Seq::<char>::empty());
                    assert(body.skip(0) =~= body);
                    assert(quoted(body) =~= seq!['"'] + tail_pat(body));
                    lemma_matches_concat(s@, i as int, seq!['"'], tail_pat(body));
                    assert(matches_at(s@, i as int, seq!['"'])) by {
                        assert(seq!['"'][0] == '"');
                        assert(s@[i + 0] == '"');
                    }
                    assert forall|w: Seq<char>|
                        matches_at(s@, i as int, quoted(w)) implies (body == w && q.1 == i
                        + quoted(w).len()) by {
                        assert(quoted(w) =~= seq!['"'] + tail_pat(w));
                        lemma_matches_concat(s@, i as int, seq!['"'], tail_pat(w));
                        lemma_qtail_det(s@, i + 1, body, w);
                    }
                }
                Some((q.0, q.1))
            },
            None => {
                proof {
                    assert forall|w: Seq<char>| !matches_at(s@, i as int, quoted(w)) by {
                        if matches_at(s@, i as int, quoted(w)) {
                            assert(quoted(w) =~= seq!['"'] + tail_pat(w));
                            lemma_matches_concat(s@, i as int, seq!['"'], tail_pat(w));
                        }
                    }
                }
                None
            },
        }
    } else {
        proof {
            assert forall|w: Seq<char>| !matches_at(s@, i as int, quoted(w)) by {
                if matches_at(s@, i as int, quoted(w)) {
                    assert(quoted(w)[0] == '"');
                    assert(s@[i + 0] == '"');
                    assert(i < n);
                }
            }
        }
        None
    }
}

/// Whether two strings hold the same characters.
pub fn str_eq(a: &str, b: &str) -> (r: bool)
    ensures
        r == (a@ == b@),
{
    let na = a.unicode_len();
    let nb = b.unicode_len();
    if na != nb {
        return false;
    }
    let mut k: usize = 0;
    while k < na
        invariant
            na == a@.len(),
            na == b@.len(),
            k <= na,
            forall|j: int| 0 <= j < k ==> a@[j] == #[trigger] b@[j],
        decreases na - k,
    {
        if a.get_char(k) != b.get_char(k) {
            return false;
        }
        k += 1;
    }
    proof {
        assert(a@ =~= b@);
    }
    true
}

/// The opening half of an encoded record: id, title and description.
pub open spec fn head_enc(t: TodoView) -> Seq<char> {
    l_id() + dec_rec(t.id as int) + l_title() + quoted(t.title) + l_desc() + quoted(t.description)
}

/// The closing half of an encoded record: status, priority, created and
/// the closing brace.
pub open spec fn meta_enc(t: TodoView) -> Seq<char> {
    l_status() + quoted(status_name(t.status)) + l_pri() + quoted(priority_name(t.priority))
        + l_created() + quoted(t.created) + l_close()
}

/// A record encoding is its two halves in order.
pub proof fn lemma_record_split(t: TodoView)
    ensures
        record_enc(t) == head_enc(t) + meta_enc(t),
{
    assert(record_enc(t) =~= head_enc(t) + meta_enc(t));
}

/// Where each part of the opening half stands, relative to its start.
proof fn lemma_head_parts(s: Seq<char>, i: int, t: TodoView)
    requires
        matches_at(s, i, head_enc(t)),
    ensures
        matches_at(s, i, l_id()),
        matches_at(s, i + 6, dec_rec(t.id as int)),
        matches_at(s, i + 6 + dec_rec(t.id as int).len(), l_title()),
        matches_at(s, i + 15 + dec_rec(t.id as int).len(), quoted(t.title)),
        matches_at(s, i + 15 + dec_rec(t.id as int).len() + quoted(t.title).len(), l_desc()),
        matches_at(
            s,
            i + 30 + dec_rec(t.id as int).len() + quoted(t.title).len(),
            quoted(t.description),
        ),
        head_enc(t).len() == 30 + dec_rec(t.id as int).len() + quoted(t.title).len() + quoted(
            t.description,
        ).len(),
{
    lemma_lit_facts();
    let a1 = l_id() + dec_rec(t.id as int);
    let a2 = a1 + l_title();
    let a3 = a2 + quoted(t.title);
    let a4 = a3 + l_desc();
    assert(head_enc(t) == a4 + quoted(t.description));
    lemma_matches_concat(s, i, a4, quoted(t.description));
    lemma_matches_concat(s, i, a3, l_desc());
    lemma_matches_concat(s, i, a2, quoted(t.title));
    lemma_matches_concat(s, i, a1, l_title());
    lemma_matches_concat(s, i, l_id(), dec_rec(t.id as int));
}

/// Where each part of the closing half stands, relative to its start.
proof fn lemma_meta_parts(s: Seq<char>, m: int, t: TodoView)
    requires
        matches_at(s, m, meta_enc(t)),
    ensures
        matches_at(s, m, l_status()),
        matches_at(s, m + 10, quoted(status_name(t.status))),
        matches_at(s, m + 10 + quoted(status_name(t.status)).len(), l_pri()),
        matches_at(s, m + 22 + quoted(status_name(t.status)).len(), quoted(priority_name(t.priority))),
        matches_at(
            s,
            m + 22 + quoted(status_name(t.status)).len() + quoted(priority_name(t.priority)).len(),
            l_created(),
        ),
        matches_at(
            s,
            m + 33 + quoted(status_name(t.status)).len() + quoted(priority_name(t.priority)).len(),
            quoted(t.created),
        ),
        matches_at(
            s,
            m + 33 + quoted(status_name(t.status)).len() + quoted(priority_name(t.priority)).len()
                + quoted(t.created).len(),
            l_close(),
        ),
        meta_enc(t).len() == 34 + quoted(status_name(t.status)).len() + quoted(
            priority_name(t.priority),
        ).len() + quoted(t.created).len(),
{
    lemma_lit_facts();
    let a1 = l_status() + quoted(status_name(t.status));
    let a2 = a1 + l_pri();
    let a3 = a2 + quoted(priority_name(t.priority));
    let a4 = a3 + l_created();
    let a5 = a4 + quoted(t.created);
    assert(meta_enc(t) == a5 + l_close());
    lemma_matches_concat(s, m, a5, l_close());
    lemma_matches_concat(s, m, a4, quoted(t.created));
    lemma_matches_concat(s, m, a3, l_created());
    lemma_matches_concat(s, m, a2, quoted(priority_name(t.priority)));
    lemma_matches_concat(s, m, a1, l_pri());
    lemma_matches_concat(s, m, l_status(), quoted(status_name(t.status)));
}

/// Parses the opening half of a record at position `i`.
#[verifier::rlimit(60)]
fn parse_head(s: &str, n: usize, i: usize) -> (r: Option<(u32, String, String, usize)>)
    requires
        n == s@.len(),
        i <= n,
    ensures
        r matches Some(p) ==> {
            let v = TodoView {
                id: p.0,
                title: p.1@,
                description: p.2@,
                status: Status::Completed,
                priority: Priority::High,
                created: Seq::empty(),
            };
            i < p.3 <= n && p.3 == i + head_enc(v).len() && matches_at(s@, i as int, head_enc(v))
        },
        forall|t: TodoView|
            matches_at(s@, i as int, head_enc(t)) ==> (r matches Some(p) && p.0 == t.id && p.1@
                == t.title && p.2@ == t.description && p.3 == i + head_enc(t).len()),
{
    proof {
        lemma_lit_facts();
    }
    if !expect_lit(s, n, i, "{\"id\":") {
        proof {
            assert forall|t: TodoView| !matches_at(s@, i as int, head_enc(t)) by {
                if matches_at(s@, i as int, head_enc(t)) {
                    lemma_head_parts(s@, i as int, t);
                }
            }
        }
        return None;
    }
    let j1 = i + 6;
    let dec_res = parse_dec(s, n, j1);
    if dec_res.is_none() {
        proof {
            assert forall|t: TodoView| !matches_at(s@, i as int, head_enc(t)) by {
                if matches_at(s@, i as int, head_enc(t)) {
                    lemma_head_parts(s@, i as int, t);
                    let after = i + 6 + dec_rec(t.id as int).len();
                    assert(s@[after + 0] == l_title()[0]);
                    assert(!is_digit_char(s@[after]));
                }
            }
        }
        return None;
    }
    let (id, j2) = dec_res.unwrap();
    if !expect_lit(s, n, j2, ",\"title\":") {
        proof {
            assert forall|t: TodoView| !matches_at(s@, i as int, head_enc(t)) by {
                if matches_at(s@, i as int, head_enc(t)) {
                    lemma_head_parts(s@, i as int, t);
                    let after = i + 6 + dec_rec(t.id as int).len();
                    assert(s@[after + 0] == l_title()[0]);
                    assert(!is_digit_char(s@[after]));
                    assert(j2 == after);
                }
            }
        }
        return None;
    }
    let j3 = j2 + 9;
    let title_res = parse_quoted(s, n, j3);
    if title_res.is_none() {
        proof {
            assert forall|t: TodoView| !matches_at(s@, i as int, head_enc(t)) by {
                if matches_at(s@, i as int, head_enc(t)) {
                    lemma_head_parts(s@, i as int, t);
                    let after = i + 6 + dec_rec(t.id as int).len();
                    assert(s@[after + 0] == l_title()[0]);
                    assert(!is_digit_char(s@[after]));
                    assert(j2 == after);
                }
            }
        }
        return None;
    }
    let (title, j4) = title_res.unwrap();
    if !expect_lit(s, n, j4, ",\"description\":") {
        proof {
            assert forall|t: TodoView| !matches_at(s@, i as int, head_enc(t)) by {
                if matches_at(s@, i as int, head_enc(t)) {
                    lemma_head_parts(s@, i as int, t);
                    let after = i + 6 + dec_rec(t.id as int).len();
                    assert(s@[after + 0] == l_title()[0]);
                    assert(!is_digit_char(s@[after]));
                    assert(j2 == after);
                    assert(title@ == t.title && j4 == i + 15 + dec_rec(t.id as int).len() + quoted(
                        t.title,
                    ).len());
                }
            }
        }
        return None;
    }
    let j5 = j4 + 15;
    let desc_res = parse_quoted(s, n, j5);
    if desc_res.is_none() {
        proof {
            assert forall|t: TodoView| !matches_at(s@, i as int, head_enc(t)) by {
                if matches_at(s@, i as int, head_enc(t)) {
                    lemma_head_parts(s@, i as int, t);
                    let after = i + 6 + dec_rec(t.id as int).len();
                    assert(s@[after + 0] == l_title()[0]);
                    assert(!is_digit_char(s@[after]));
                    assert(j2 == after);
                    assert(title@ == t.title && j4 == i + 15 + dec_rec(t.id as int).len() + quoted(
                        t.title,
                    ).len());
                }
            }
        }
        return None;
    }
    let (description, j6) = desc_res.unwrap();
    proof {
        let v = TodoView {
            id,
            title: title@,
            description: description@,
            status: Status::Completed,
            priority: Priority::High,
            created: Seq::empty(),
        };
        let a1 = l_id() + dec_rec(v.id as int);
        let a2 = a1 + l_title();
        let a3 = a2 + quoted(v.title);
        let a4 = a3 + l_desc();
        lemma_matches_concat(s@, i as int, l_id(), dec_rec(v.id as int));
        lemma_matches_concat(s@, i as int, a1, l_title());
        lemma_matches_concat(s@, i as int, a2, quoted(v.title));
        lemma_matches_concat(s@, i as int, a3, l_desc());
        lemma_matches_concat(s@, i as int, a4, quoted(v.description));
        assert(head_enc(v) == a4 + quoted(v.description));
        assert(matches_at(s@, i as int, head_enc(v)));
        assert(j6 == i + head_enc(v).len());
        assert forall|t: TodoView|
            matches_at(s@, i as int, head_enc(t)) implies (id == t.id && title@ == t.title
            && description@ == t.description && j6 == i + head_enc(t).len()) by {
            lemma_head_parts(s@, i as int, t);
            let after = i + 6 + dec_rec(t.id as int).len();
            assert(s@[after + 0] == l_title()[0]);
            assert(!is_digit_char(s@[after]));
            assert(id == t.id && j2 == after);
            assert(title@ == t.title);
            assert(description@ == t.description);
        }
    }
    Some((id, title, description, j6))
}

/// The status and priority fields of an encoded record.
pub open spec fn state_enc(t: TodoView) -> Seq<char> {
    l_status() + quoted(status_name(t.status)) + l_pri() + quoted(priority_name(t.priority))
}

/// The created field and closing brace of an encoded record.
pub open spec fn close_enc(t: TodoView) -> Seq<char> {
    l_created() + quoted(t.created) + l_close()
}

/// The closing half is its two parts in order.
pub proof fn lemma_meta_split(t: TodoView)
    ensures
        meta_enc(t) == state_enc(t) + close_enc(t),
{
    assert(meta_enc(t) =~= state_enc(t) + close_enc(t));
}

/// Where each part of the status and priority fields stands.
proof fn lemma_state_parts(s: Seq<char>, m: int, t: TodoView)
    requires
        matches_at(s, m, state_enc(t)),
    ensures
        matches_at(s, m, l_status()),
        matches_at(s, m + 10, quoted(status_name(t.status))),
        matches_at(s, m + 10 + quoted(status_name(t.status)).len(), l_pri()),
        matches_at(
            s,
            m + 22 + quoted(status_name(t.status)).len(),
            quoted(priority_name(t.priority)),
        ),
        state_enc(t).len() == 22 + quoted(status_name(t.status)).len() + quoted(
            priority_name(t.priority),
        ).len(),
{
    lemma_lit_facts();
    let a1 = l_status() + quoted(status_name(t.status));
    let a2 = a1 + l_pri();
    assert(state_enc(t) == a2 + quoted(priority_name(t.priority)));
    lemma_matches_concat(s, m, a2, quoted(priority_name(t.priority)));
    lemma_matches_concat(s, m, a1, l_pri());
    lemma_matches_concat(s, m, l_status(), quoted(status_name(t.status)));
}

/// Where each part of the created field and closing brace stands.
proof fn lemma_close_parts(s: Seq<char>, m: int, t: TodoView)
    requires
        matches_at(s, m, close_enc(t)),
    ensures
        matches_at(s, m, l_created()),
        matches_at(s, m + 11, quoted(t.created)),
        matches_at(s, m + 11 + quoted(t.created).len(), l_close()),
        close_enc(t).len() == 12 + quoted(t.created).len(),
{
    lemma_lit_facts();
    let a1 = l_created() + quoted(t.created);
    assert(close_enc(t) == a1 + l_close());
    lemma_matches_concat(s, m, a1, l_close());
    lemma_matches_concat(s, m, l_created(), quoted(t.created));
}

/// Parses the status and priority fields at position `m`.
#[verifier::rlimit(60)]
fn parse_state(s: &str, n: usize, m: usize) -> (r: Option<(Status, Priority, usize)>)
    requires
        n == s@.len(),
        m <= n,
    ensures
        r matches Some(p) ==> ({
            let v = TodoView {
                id: 0,
                title: Seq::empty(),
                description: Seq::empty(),
                status: p.0,
                priority: p.1,
                created: Seq::empty(),
            };
            m < p.2 <= n && p.2 == m + state_enc(v).len() && matches_at(s@, m as int, state_enc(v))
        }),
        forall|t: TodoView|
            matches_at(s@, m as int, state_enc(t)) ==> (r matches Some(p) && p.0 == t.status
                && p.1 == t.priority && p.2 == m + state_enc(t).len()),
{
    proof {
        lemma_lit_facts();
    }
    if !expect_lit(s, n, m, ",\"status\":") {
        proof {
            assert forall|t: TodoView| !matches_at(s@, m as int, state_enc(t)) by {
                if matches_at(s@, m as int, state_enc(t)) {
                    lemma_state_parts(s@, m as int, t);
                }
            }
        }
        return None;
    }
    let j1 = m + 10;
    let status_res = parse_quoted(s, n, j1);
    if status_res.is_none() {
        proof {
            assert forall|t: TodoView| !matches_at(s@, m as int, state_enc(t)) by {
                if matches_at(s@, m as int, state_enc(t)) {
                    lemma_state_parts(s@, m as int, t);
                }
            }
        }
        return None;
    }
    let (sname, j2) = status_res.unwrap();
    let status = if str_eq(sname.as_str(), "Completed") {
        Status::Completed
    } else if str_eq(sname.as_str(), "NotCompleted") {
        Status::NotCompleted
    } else {
        proof {
            assert forall|t: TodoView| !matches_at(s@, m as int, state_enc(t)) by {
                if matches_at(s@, m as int, state_enc(t)) {
                    lemma_state_parts(s@, m as int, t);
                    assert(sname@ == status_name(t.status));
                }
            }
        }
        return None;
    };
    if !expect_lit(s, n, j2, ",\"priority\":") {
        proof {
            assert forall|t: TodoView| !matches_at(s@, m as int, state_enc(t)) by {
                if matches_at(s@, m as int, state_enc(t)) {
                    lemma_state_parts(s@, m as int, t);
                    assert(sname@ == status_name(t.status) && j2 == m + 10 + quoted(
                        status_name(t.status),
                    ).len());
                }
            }
        }
        return None;
    }
    let j3 = j2 + 12;
    let pri_res = parse_quoted(s, n, j3);
    if pri_res.is_none() {
        proof {
            assert forall|t: TodoView| !matches_at(s@, m as int, state_enc(t)) by {
                if matches_at(s@, m as int, state_enc(t)) {
                    lemma_state_parts(s@, m as int, t);
                    assert(sname@ == status_name(t.status) && j2 == m + 10 + quoted(
                        status_name(t.status),
                    ).len());
                }
            }
        }
        return None;
    }
    let (pname, j4) = pri_res.unwrap();
    let priority = if str_eq(pname.as_str(), "High") {
        Priority::High
    } else if str_eq(pname.as_str(), "Medium") {
        Priority::Medium
    } else if str_eq(pname.as_str(), "Low") {
        Priority::Low
    } else {
        proof {
            assert forall|t: TodoView| !matches_at(s@, m as int, state_enc(t)) by {
                if matches_at(s@, m as int, state_enc(t)) {
                    lemma_state_parts(s@, m as int, t);
                    assert(sname@ == status_name(t.status) && j2 == m + 10 + quoted(
                        status_name(t.status),
                    ).len());
                    assert(pname@ == priority_name(t.priority));
                }
            }
        }
        return None;
    };
    proof {
        let v = TodoView {
            id: 0,
            title: Seq::empty(),
            description: Seq::empty(),
            status,
            priority,
            created: Seq::empty(),
        };
        assert(sname@ == status_name(status));
        assert(pname@ == priority_name(priority));
        let a1 = l_status() + quoted(status_name(v.status));
        let a2 = a1 + l_pri();
        lemma_matches_concat(s@, m as int, l_status(), quoted(status_name(v.status)));
        lemma_matches_concat(s@, m as int, a1, l_pri());
        lemma_matches_concat(s@, m as int, a2, quoted(priority_name(v.priority)));
        assert(state_enc(v) == a2 + quoted(priority_name(v.priority)));
        assert(matches_at(s@, m as int, state_enc(v)));
        assert(j4 == m + state_enc(v).len());
        assert forall|t: TodoView|
            matches_at(s@, m as int, state_enc(t)) implies (status == t.status && priority
            == t.priority && j4 == m + state_enc(t).len()) by {
            lemma_state_parts(s@, m as int, t);
            assert(sname@ == status_name(t.status));
            assert(status == t.status);
            assert(pname@ == priority_name(t.priority));
            assert(priority == t.priority);
        }
    }
    Some((status, priority, j4))
}

/// Parses the created field and closing brace at position `m`.
#[verifier::rlimit(60)]
fn parse_close(s: &str, n: usize, m: usize) -> (r: Option<(String, usize)>)
    requires
        n == s@.len(),
        m <= n,
    ensures
        r matches Some(p) ==> ({
            let v = TodoView {
                id: 0,
                title: Seq::empty(),
                description: Seq::empty(),
                status: Status::Completed,
                priority: Priority::High,
                created: p.0@,
            };
            m < p.1 <= n && p.1 == m + close_enc(v).len() && matches_at(s@, m as int, close_enc(v))
        }),
        forall|t: TodoView|
            matches_at(s@, m as int, close_enc(t)) ==> (r matches Some(p) && p.0@ == t.created
                && p.1 == m + close_enc(t).len()),
{
    proof {
        lemma_lit_facts();
    }
    if !expect_lit(s, n, m, ",\"created\":") {
        proof {
            assert forall|t: TodoView| !matches_at(s@, m as int, close_enc(t)) by {
                if matches_at(s@, m as int, close_enc(t)) {
                    lemma_close_parts(s@, m as int, t);
                }
            }
        }
        return None;
    }
    let j1 = m + 11;
    let created_res = parse_quoted(s, n, j1);
    if created_res.is_none() {
        proof {
            assert forall|t: TodoView| !matches_at(s@, m as int, close_enc(t)) by {
                if matches_at(s@, m as int, close_enc(t)) {
                    lemma_close_parts(s@, m as int, t);
                }
            }
        }
        return None;
    }
    let (created, j2) = created_res.unwrap();
    if !expect_lit(s, n, j2, "}") {
        proof {
            assert forall|t: TodoView| !matches_at(s@, m as int, close_enc(t)) by {
                if matches_at(s@, m as int, close_enc(t)) {
                    lemma_close_parts(s@, m as int, t);
                    assert(created@ == t.created && j2 == m + 11 + quoted(t.created).len());
                }
            }
        }
        return None;
    }
    let j3 = j2 + 1;
    proof {
        let v = TodoView {
            id: 0,
            title: Seq::empty(),
            description: Seq::empty(),
            status: Status::Completed,
            priority: Priority::High,
            created: created@,
        };
        let a1 = l_created() + quoted(v.created);
        lemma_matches_concat(s@, m as int, l_created(), quoted(v.created));
        lemma_matches_concat(s@, m as int, a1, l_close());
        assert(close_enc(v) == a1 + l_close());
        assert(matches_at(s@, m as int, close_enc(v)));
        assert(j3 == m + close_enc(v).len());
        assert forall|t: TodoView|
            matches_at(s@, m as int, close_enc(t)) implies (created@ == t.created && j3 == m
            + close_enc(t).len()) by {
            lemma_close_parts(s@, m as int, t);
        }
    }
    Some((created, j3))
}

/// Parses the closing half of a record at position `m`.
fn parse_meta(s: &str, n: usize, m: usize) -> (r: Option<(Status, Priority, String, usize)>)
    requires
        n == s@.len(),
        m <= n,
    ensures
        r matches Some(p) ==> ({
            let v = TodoView {
                id: 0,
                title: Seq::empty(),
                description: Seq::empty(),
                status: p.0,
                priority: p.1,
                created: p.2@,
            };
            m < p.3 <= n && p.3 == m + meta_enc(v).len() && matches_at(s@, m as int, meta_enc(v))
        }),
        forall|t: TodoView|
            matches_at(s@, m as int, meta_enc(t)) ==> (r matches Some(p) && p.0 == t.status && p.1
                == t.priority && p.2@ == t.created && p.3 == m + meta_enc(t).len()),
{
    let state_res = parse_state(s, n, m);
    if state_res.is_none() {
        proof {
            assert forall|t: TodoView| !matches_at(s@, m as int, meta_enc(t)) by {
                if matches_at(s@, m as int, meta_enc(t)) {
                    lemma_meta_split(t);
                    lemma_matches_concat(s@, m as int, state_enc(t), close_enc(t));
                }
            }
        }
        return None;
    }
    let (status, priority, j) = state_res.unwrap();
    let close_res = parse_close(s, n, j);
    if close_res.is_none() {
        proof {
            assert forall|t: TodoView| !matches_at(s@, m as int, meta_enc(t)) by {
                if matches_at(s@, m as int, meta_enc(t)) {
                    lemma_meta_split(t);
                    lemma_matches_concat(s@, m as int, state_enc(t), close_enc(t));
                    assert(j == m + state_enc(t).len());
                }
            }
        }
        return None;
    }
    let (created, j2) = close_res.unwrap();
    proof {
        let v = TodoView {
            id: 0,
            title: Seq::empty(),
            description: Seq::empty(),
            status,
            priority,
            created: created@,
        };
        let sv = TodoView {
            id: 0,
            title: Seq::empty(),
            description: Seq::empty(),
            status,
            priority,
            created: Seq::empty(),
        };
        let cv = TodoView {
            id: 0,
            title: Seq::empty(),
            description: Seq::empty(),
            status: Status::Completed,
            priority: Priority::High,
            created: created@,
        };
        assert(state_enc(v) == state_enc(sv));
        assert(close_enc(v) == close_enc(cv));
        lemma_meta_split(v);
        lemma_matches_concat(s@, m as int, state_enc(v), close_enc(v));
        assert(matches_at(s@, m as int, meta_enc(v)));
        assert(j2 == m + meta_enc(v).len());
        assert forall|t: TodoView|
            matches_at(s@, m as int, meta_enc(t)) implies (status == t.status && priority
            == t.priority && created@ == t.created && j2 == m + meta_enc(t).len()) by {
            lemma_meta_split(t);
            lemma_matches_concat(s@, m as int, state_enc(t), close_enc(t));
            assert(status == t.status && priority == t.priority && j == m + state_enc(t).len());
            assert(created@ == t.created && j2 == j + close_enc(t).len());
        }
    }
    Some((status, priority, created, j2))
}

/// Parses one encoded record at position `i`: on success the consumed
/// span is exactly the record's encoding, and whenever some record
/// encoding starts at `i` the parse succeeds with exactly that record.
pub fn parse_record(s: &str, n: usize, i: usize) -> (r: Option<(Todo, usize)>)
    requires
        n == s@.len(),
        i <= n,
    ensures
        r matches Some(p) ==> i < p.1 <= n && p.1 == i + record_enc(p.0@).len() && matches_at(
            s@,
            i as int,
            record_enc(p.0@),
        ),
        forall|t: TodoView|
            matches_at(s@, i as int, record_enc(t)) ==> (r matches Some(p) && p.0@ == t && p.1 == i
                + record_enc(t).len()),
{
    let head_res = parse_head(s, n, i);
    if head_res.is_none() {
        proof {
            assert forall|t: TodoView| !matches_at(s@, i as int, record_enc(t)) by {
                if matches_at(s@, i as int, record_enc(t)) {
                    lemma_record_split(t);
                    lemma_matches_concat(s@, i as int, head_enc(t), meta_enc(t));
                }
            }
        }
        return None;
    }
    let (id, title, description, j) = head_res.unwrap();
    let meta_res = parse_meta(s, n, j);
    if meta_res.is_none() {
        proof {
            assert forall|t: TodoView| !matches_at(s@, i as int, record_enc(t)) by {
                if matches_at(s@, i as int, record_enc(t)) {
                    lemma_record_split(t);
                    lemma_matches_concat(s@, i as int, head_enc(t), meta_enc(t));
                    assert(j == i + head_enc(t).len());
                }
            }
        }
        return None;
    }
    let (status, priority, created, j2) = meta_res.unwrap();
    let todo = Todo { id, title, description, status, priority, created };
    proof {
        let v = todo@;
        let hv = TodoView {
            id,
            title: v.title,
            description: v.description,
            status: Status::Completed,
            priority: Priority::High,
            created: Seq::empty(),
        };
        let mv = TodoView {
            id: 0,
            title: Seq::empty(),
            description: Seq::empty(),
            status,
            priority,
            created: v.created,
        };
        assert(head_enc(v) == head_enc(hv));
        assert(meta_enc(v) == meta_enc(mv));
        lemma_record_split(v);
        lemma_matches_concat(s@, i as int, head_enc(v), meta_enc(v));
        assert(matches_at(s@, i as int, record_enc(v)));
        assert(j2 == i + record_enc(v).len());
        assert forall|t: TodoView|
            matches_at(s@, i as int, record_enc(t)) implies (v == t && j2 == i + record_enc(
            t,
        ).len()) by {
            lemma_record_split(t);
            lemma_matches_concat(s@, i as int, head_enc(t), meta_enc(t));
            assert(id == t.id && v.title == t.title && v.description == t.description && j == i
                + head_enc(t).len());
            assert(status == t.status && priority == t.priority && v.created == t.created && j2
                == j + meta_enc(t).len());
            assert(v =~= t);
        }
    }
    Some((todo, j2))
}

/// One or more encoded records, comma-separated, then the closing
/// bracket: what follows the first `[` of a non-empty collection.
pub open spec fn tail_list_enc(c: Seq<TodoView>) -> Seq<char>
    decreases c.len(),
{
    if c.len() <= 1 {
        record_enc(c[0]) + seq![']']
    } else {
        record_enc(c[0]) + seq![','] + tail_list_enc(c.drop_first())
    }
}

/// The record list plus closing bracket equals the tail form.
pub proof fn lemma_tail_list(c: Seq<TodoView>)
    requires
        c.len() >= 1,
    ensures
        tail_list_enc(c) == records_enc(c) + seq![']'],
    decreases c.len(),
{
    if c.len() == 1 {
        assert(tail_list_enc(c) =~= records_enc(c) + seq![']']);
    } else {
        lemma_tail_list(c.drop_first());
        assert(tail_list_enc(c) =~= records_enc(c) + seq![']']);
    }
}

/// An encoded record begins with an opening brace.
proof fn lemma_record_first(t: TodoView)
    ensures
        record_enc(t).len() >= 65,
        record_enc(t)[0] == '{',
{
    lemma_lit_facts();
    lemma_record_split(t);
    let a1 = l_id() + dec_rec(t.id as int);
    let a2 = a1 + l_title();
    let a3 = a2 + quoted(t.title);
    let a4 = a3 + l_desc();
    assert(head_enc(t) == a4 + quoted(t.description));
    assert(a1[0] == l_id()[0]);
    assert(a2[0] == a1[0]);
    assert(a3[0] == a2[0]);
    assert(a4[0] == a3[0]);
    assert(head_enc(t)[0] == a4[0]);
    assert(record_enc(t)[0] == head_enc(t)[0]);
    lemma_dec_rec_shape(t.id as int);
}

/// Lifting a push through the collection model.
proof fn lemma_views_push(s: Seq<Todo>, t: Todo)
    ensures
        views(s.push(t)) == views(s).push(t@),
{
    assert(views(s.push(t)) =~= views(s).push(t@));
}

/// Under the pinning contract of the record parser, a matching tail
/// list determines its first record, the position after it, and the
/// character that follows.
proof fn lemma_tail_step(s: Seq<char>, p: int, c: Seq<TodoView>, tv: TodoView, j: int)
    requires
        c.len() >= 1,
        matches_at(s, p, tail_list_enc(c)),
        forall|t2: TodoView|
            matches_at(s, p, record_enc(t2)) ==> (tv == t2 && j == p + record_enc(t2).len()),
    ensures
        tv == c[0],
        j == p + record_enc(c[0]).len(),
        c.len() == 1 ==> (j < s.len() && s[j] == ']' && j + 1 == p + tail_list_enc(c).len()),
        c.len() >= 2 ==> (j < s.len() && s[j] == ',' && matches_at(
            s,
            j + 1,
            tail_list_enc(c.drop_first()),
        ) && tail_list_enc(c).len() == record_enc(c[0]).len() + 1 + tail_list_enc(
            c.drop_first(),
        ).len()),
{
    if c.len() == 1 {
        lemma_matches_concat(s, p, record_enc(c[0]), seq![']']);
        assert(tv == c[0] && j == p + record_enc(c[0]).len());
        assert(s[j + 0] == seq![']'][0]);
    } else {
        assert(tail_list_enc(c) =~= record_enc(c[0]) + (seq![','] + tail_list_enc(
            c.drop_first(),
        )));
        lemma_matches_concat(s, p, record_enc(c[0]), seq![','] + tail_list_enc(c.drop_first()));
        assert(tv == c[0] && j == p + record_enc(c[0]).len());
        lemma_matches_concat(s, j, seq![','], tail_list_enc(c.drop_first()));
        assert(s[j + 0] == seq![','][0]);
    }
}

/// Splices one parsed record into the accumulated-prefix view of a
/// recursive list-parse result.
proof fn lemma_tail_splice(
    s: Seq<char>,
    p: int,
    j: int,
    accv: Seq<TodoView>,
    tv: TodoView,
    a: Seq<TodoView>,
)
    requires
        a.len() >= accv.len() + 1,
        a.take((accv.len() + 1) as int) == accv.push(tv),
        a.skip((accv.len() + 1) as int).len() >= 1,
        matches_at(s, j + 1, tail_list_enc(a.skip((accv.len() + 1) as int))),
        matches_at(s, p, record_enc(tv)),
        j == p + record_enc(tv).len(),
        j < s.len(),
        s[j] == ',',
    ensures
        a.take(accv.len() as int) == accv,
        a.skip(accv.len() as int).len() >= 2,
        matches_at(s, p, tail_list_enc(a.skip(accv.len() as int))),
        tail_list_enc(a.skip(accv.len() as int)).len() == record_enc(tv).len() + 1
            + tail_list_enc(a.skip((accv.len() + 1) as int)).len(),
{
    let al = accv.len() as int;
    let t1 = a.skip(al);
    let t2 = a.skip(al + 1);
    assert forall|k: int| 0 <= k < al implies a[k] == accv[k] by {
        assert(a.take(al + 1)[k] == accv.push(tv)[k]);
    }
    assert(a.take(al) =~= accv);
    assert(a[al] == a.take(al + 1)[al]);
    assert(a[al] == tv);
    assert(t1[0] == tv);
    assert(t1.drop_first() =~= t2);
    assert(t1.len() >= 2);
    assert(tail_list_enc(t1) == record_enc(tv) + seq![','] + tail_list_enc(t2));
    assert(tail_list_enc(t1) =~= record_enc(tv) + (seq![','] + tail_list_enc(t2)));
    lemma_matches_concat(s, p, record_enc(tv), seq![','] + tail_list_enc(t2));
    lemma_matches_concat(s, j, seq![','], tail_list_enc(t2));
    assert(matches_at(s, j, seq![','])) by {
        assert(seq![','][0] == ',');
        assert(s[j + 0] == ',');
    }
}

/// Completeness of the list parser: whenever a tail list form starts at
/// `p`, the result is exactly the collected prefix plus that list.
pub open spec fn tail_complete(
    s: Seq<char>,
    p: int,
    accv: Seq<TodoView>,
    r: Option<(Vec<Todo>, usize)>,
) -> bool {
    forall|c: Seq<TodoView>|
        (c.len() >= 1 && matches_at(s, p, tail_list_enc(c))) ==> (r matches Some(q) && views(q.0@)
            == accv + c && q.1 == p + tail_list_enc(c).len())
}

/// Parses records separated by commas until the closing bracket, having
/// already collected `acc`.
#[verifier::rlimit(100)]
#[verifier::spinoff_prover]
fn parse_tail(s: &str, n: usize, p: usize, acc: Vec<Todo>) -> (r: Option<(Vec<Todo>, usize)>)
    requires
        n == s@.len(),
        p <= n,
    ensures
        r matches Some(q) ==> acc@.len() <= q.0@.len() && views(q.0@).take(acc@.len() as int)
            == views(acc@) && q.1 <= n && views(q.0@).skip(acc@.len() as int).len() >= 1 && q.1
            == p + tail_list_enc(views(q.0@).skip(acc@.len() as int)).len() && matches_at(
            s@,
            p as int,
            tail_list_enc(views(q.0@).skip(acc@.len() as int)),
        ),
        tail_complete(s@, p as int, views(acc@), r),
    decreases n - p,
{
    let ghost acc_raw = acc@;
    let ghost accv = views(acc@);
    let rec_res = parse_record(s, n, p);
    if rec_res.is_none() {
        proof {
            assert forall|c: Seq<TodoView>|
                !(c.len() >= 1 && matches_at(s@, p as int, tail_list_enc(c))) by {
                if c.len() >= 1 && matches_at(s@, p as int, tail_list_enc(c)) {
                    if c.len() == 1 {
                        lemma_matches_concat(s@, p as int, record_enc(c[0]), seq![']']);
                    } else {
                        assert(tail_list_enc(c) =~= record_enc(c[0]) + (seq![','] + tail_list_enc(
                            c.drop_first(),
                        )));
                        lemma_matches_concat(
                            s@,
                            p as int,
                            record_enc(c[0]),
                            seq![','] + tail_list_enc(c.drop_first()),
                        );
                    }
                }
            }
            assert(tail_complete(s@, p as int, accv, None::<(Vec<Todo>, usize)>));
        }
        return None;
    }
    let (t, j) = rec_res.unwrap();
    let ghost tv = t@;
    let mut acc2 = acc;
    acc2.push(t);
    proof {
        assert(acc2@ == acc_raw.push(acc2@[acc_raw.len() as int]));
        lemma_views_push(acc_raw, acc2@[acc_raw.len() as int]);
        assert(views(acc2@) == accv.push(tv));
    }
    if j < n && s.get_char(j) == ',' {
        let res = parse_tail(s, n, j + 1, acc2);
        match res {
            Some(q) => {
                proof {
                    let a = views(q.0@);
                    assert(a.take((accv.len() + 1) as int) == views(acc2@));
                    assert(views(acc2@) == accv.push(tv));
                    lemma_tail_splice(s@, p as int, j as int, accv, tv, a);
                    assert forall|c: Seq<TodoView>|
                        (c.len() >= 1 && matches_at(s@, p as int, tail_list_enc(c))) implies (a
                        == accv + c && q.1 == p + tail_list_enc(c).len()) by {
                        lemma_tail_step(s@, p as int, c, tv, j as int);
                        assert(c.len() >= 2);
                        assert(c.drop_first().len() >= 1);
                        assert(matches_at(s@, (j + 1) as int, tail_list_enc(c.drop_first())));
                        assert(a == views(acc2@) + c.drop_first());
                        assert(views(acc2@) == accv.push(c[0]));
                        assert(a =~= accv + c);
                        assert(q.1 == (j + 1) + tail_list_enc(c.drop_first()).len());
                    }
                    assert(tail_complete(s@, p as int, accv, Some(q)));
                }
                Some(q)
            },
            None => {
                proof {
                    assert forall|c: Seq<TodoView>|
                        !(c.len() >= 1 && matches_at(s@, p as int, tail_list_enc(c))) by {
                        if c.len() >= 1 && matches_at(s@, p as int, tail_list_enc(c)) {
                            lemma_tail_step(s@, p as int, c, tv, j as int);
                            assert(c.len() >= 2);
                            assert(c.drop_first().len() >= 1);
                            assert(matches_at(s@, (j + 1) as int, tail_list_enc(c.drop_first())));
                        }
                    }
                    assert(tail_complete(s@, p as int, accv, None::<(Vec<Todo>, usize)>));
                }
                None
            },
        }
    } else if j < n && s.get_char(j) == ']' {
        proof {
            let t1 = views(acc2@).skip(accv.len() as int);
            assert(views(acc2@).take(accv.len() as int) =~= accv);
            assert(t1 =~= seq![tv]);
            assert(t1[0] == tv);
            assert(tail_list_enc(t1) == record_enc(tv) + seq![']']);
            lemma_matches_concat(s@, p as int, record_enc(tv), seq![']']);
            assert(matches_at(s@, j as int, seq![']'])) by {
                assert(seq![']'][0] == ']');
                assert(s@[j + 0] == ']');
            }
            assert(matches_at(s@, p as int, tail_list_enc(t1)));
            assert forall|c: Seq<TodoView>|
                (c.len() >= 1 && matches_at(s@, p as int, tail_list_enc(c))) implies (views(
                acc2@,
            ) == accv + c && j + 1 == p + tail_list_enc(c).len()) by {
                lemma_tail_step(s@, p as int, c, tv, j as int);
                assert(c.len() == 1) by {
                    if c.len() >= 2 {
                        assert(s@[j as int] == ',');
                    }
                }
                assert(c =~= seq![c[0]]);
                assert(views(acc2@) =~= accv + c);
            }
            assert(tail_complete(s@, p as int, accv, Some((acc2, (j + 1) as usize))));
        }
        Some((acc2, j + 1))
    } else {
        proof {
            assert forall|c: Seq<TodoView>|
                !(c.len() >= 1 && matches_at(s@, p as int, tail_list_enc(c))) by {
                if c.len() >= 1 && matches_at(s@, p as int, tail_list_enc(c)) {
                    lemma_tail_step(s@, p as int, c, tv, j as int);
                }
            }
            assert(tail_complete(s@, p as int, accv, None::<(Vec<Todo>, usize)>));
        }
        None
    }
}

/// Parses a whole collection from its structured text: succeeds exactly
/// on the canonical encoding of some collection, and returns that
/// collection. Together with [`crate::codec::encode_records`] this makes the
/// round trip exact: decoding an encoded collection gives it back.
#[verifier::rlimit(60)]
pub fn parse_records(s: &str) -> (r: Option<Vec<Todo>>)
    ensures
        r matches Some(v) ==> s@ == json_of(views(v@)),
        forall|c: Seq<TodoView>| s@ == json_of(c) ==> (r matches Some(v) && views(v@) == c),
{
    let n = s.unicode_len();
    if n < 2 {
        proof {
            assert forall|c: Seq<TodoView>| s@ != json_of(c) by {
                assert(json_of(c).len() >= 2);
            }
        }
        return None;
    }
    if s.get_char(0) != '[' {
        proof {
            assert forall|c: Seq<TodoView>| s@ != json_of(c) by {
                assert(json_of(c)[0] == '[');
            }
        }
        return None;
    }
    if s.get_char(1) == ']' {
        if n == 2 {
            let v: Vec<Todo> = Vec::new();
            proof {
                assert(records_enc(Seq::<TodoView>::empty()) == Seq::<char>::empty());
                assert(s@ =~= json_of(Seq::<TodoView>::empty()));
                assert(views(v@) =~= Seq::<TodoView>::empty());
                assert forall|c: Seq<TodoView>| s@ == json_of(c) implies views(v@) == c by {
                    if c.len() >= 1 {
                        lemma_tail_list(c);
                        lemma_record_first(c[0]);
                        assert(json_of(c) =~= seq!['['] + tail_list_enc(c));
                        assert(tail_list_enc(c)[0] == record_enc(c[0])[0]);
                        assert(json_of(c)[1] == tail_list_enc(c)[0]);
                        assert(s@[1] == '{');
                    }
                    assert(views(v@) =~= c);
                }
            }
            return Some(v);
        } else {
            proof {
                assert forall|c: Seq<TodoView>| s@ != json_of(c) by {
                    if s@ == json_of(c) {
                        if c.len() == 0 {
                            assert(records_enc(c) == Seq::<char>::empty());
                            assert(json_of(c).len() == 2);
                        } else {
                            lemma_tail_list(c);
                            lemma_record_first(c[0]);
                            assert(json_of(c) =~= seq!['['] + tail_list_enc(c));
                            assert(tail_list_enc(c)[0] == record_enc(c[0])[0]);
                            assert(json_of(c)[1] == tail_list_enc(c)[0]);
                            assert(s@[1] == '{');
                        }
                    }
                }
            }
            return None;
        }
    }
    let acc: Vec<Todo> = Vec::new();
    let res = parse_tail(s, n, 1, acc);
    match res {
        Some((v, j)) => {
            if j == n {
                proof {
                    let tl = views(v@).skip(0);
                    assert(tl =~= views(v@));
                    lemma_tail_list(views(v@));
                    assert(json_of(views(v@)) =~= seq!['['] + tail_list_enc(views(v@)));
                    assert forall|k: int|
                        0 <= k < s@.len() implies s@[k] == json_of(views(v@))[k] by {
                        if k == 0 {
                            assert(s@[0] == '[');
                            assert((seq!['['] + tail_list_enc(views(v@)))[0] == '[');
                        } else {
                            assert(s@[1 + (k - 1)] == tail_list_enc(views(v@))[k - 1]);
                            assert((seq!['['] + tail_list_enc(views(v@)))[k] == tail_list_enc(
                                views(v@),
                            )[k - 1]);
                        }
                    }
                    assert(s@ =~= json_of(views(v@)));
                    assert forall|c: Seq<TodoView>| s@ == json_of(c) implies views(v@) == c by {
                        lemma_json_nonempty_tail(s@, c);
                        assert(views(v@) == views(acc@) + c);
                        assert(views(acc@) =~= Seq::<TodoView>::empty());
                        assert(views(v@) =~= c);
                    }
                }
                Some(v)
            } else {
                proof {
                    assert forall|c: Seq<TodoView>| s@ != json_of(c) by {
                        if s@ == json_of(c) {
                            lemma_json_nonempty_tail(s@, c);
                            assert(j == 1 + tail_list_enc(c).len());
                            lemma_tail_list(c);
                            assert(json_of(c).len() == 2 + records_enc(c).len());
                        }
                    }
                }
                None
            }
        },
        None => {
            proof {
                assert forall|c: Seq<TodoView>| s@ != json_of(c) by {
                    if s@ == json_of(c) {
                        lemma_json_nonempty_tail(s@, c);
                    }
                }
            }
            None
        },
    }
}

/// In the canonical text of a non-empty collection, the tail form starts
/// right after the opening bracket. The collection must be non-empty
/// whenever the second character is not the closing bracket.
proof fn lemma_json_nonempty_tail(s: Seq<char>, c: Seq<TodoView>)
    requires
        s == json_of(c),
        s.len() >= 2,
        s[1] != ']',
    ensures
        c.len() >= 1,
        matches_at(s, 1, tail_list_enc(c)),
        s.len() == 1 + tail_list_enc(c).len(),
{
    if c.len() == 0 {
        assert(records_enc(c) == Seq::<char>::empty());
        assert(json_of(c) =~= seq!['[', ']']);
        assert(s[1] == ']');
        assert(false);
    }
    lemma_tail_list(c);
    assert(json_of(c) =~= seq!['['] + tail_list_enc(c));
    assert forall|k: int| 0 <= k < tail_list_enc(c).len() implies s[1 + k] == #[trigger]
    tail_list_enc(c)[k] by {
        assert(s[1 + k] == (seq!['['] + tail_list_enc(c))[1 + k]);
    }
}

} // verus!
