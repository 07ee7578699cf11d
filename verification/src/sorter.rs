//! Deterministic ordering of archive file names that contain unpadded
//! embedded integers.
//!
//! A plain lexical sort would scatter numbered files ("1", "10", "100", "2",
//! ...).  The order used here extracts the first maximal run of decimal
//! digits from each file name's stem and sorts by its numeric value,
//! ascending and unbounded (0 when the stem holds no digit), falling back
//! to exact lexical comparison of the stems on ties.

use vstd::prelude::*;
use vstd::multiset::Multiset;
use vstd::seq_lib::lemma_multiset_commutative;
use crate::text::chars_of;

verus! {

broadcast use vstd::seq_lib::group_seq_properties;

// ---------------------------------------------------------------------------
// Lexical order on character sequences
// ---------------------------------------------------------------------------

/// Lexical comparison of `a` and `b` from position `i` on, by code point.
pub open spec fn lex_le_from(a: Seq<char>, b: Seq<char>, i: int) -> bool
    decreases a.len() - i,
{
    if i >= a.len() {
        true
    } else if i >= b.len() {
        false
    } else if (a[i] as u32) < (b[i] as u32) {
        true
    } else if (a[i] as u32) > (b[i] as u32) {
        false
    } else {
        lex_le_from(a, b, i + 1)
    }
}

/// Lexical order: `a` is equal to `b`, or precedes it.
pub open spec fn lex_le(a: Seq<char>, b: Seq<char>) -> bool {
    lex_le_from(a, b, 0)
}

proof fn lemma_lex_le_from_total(a: Seq<char>, b: Seq<char>, i: int)
    ensures
        lex_le_from(a, b, i) || lex_le_from(b, a, i),
    decreases a.len() - i,
{
    if i >= a.len() {
    } else if i >= b.len() {
    } else if (a[i] as u32) == (b[i] as u32) {
        lemma_lex_le_from_total(a, b, i + 1);
    }
}

proof fn lemma_lex_le_from_trans(a: Seq<char>, b: Seq<char>, c: Seq<char>, i: int)
    requires
        lex_le_from(a, b, i),
        lex_le_from(b, c, i),
    ensures
        lex_le_from(a, c, i),
    decreases a.len() - i,
{
    if i >= a.len() {
    } else if i >= b.len() {
        assert(!lex_le_from(a, b, i));
    } else if i >= c.len() {
        assert(!lex_le_from(b, c, i));
    } else {
        if (a[i] as u32) == (b[i] as u32) && (b[i] as u32) == (c[i] as u32) {
            lemma_lex_le_from_trans(a, b, c, i + 1);
        }
    }
}

// ---------------------------------------------------------------------------
// File name stems
// ---------------------------------------------------------------------------

/// Index of the last `'.'` in `s`, or -1 when there is none.
pub open spec fn last_dot(s: Seq<char>) -> int
    decreases s.len(),
{
    if s.len() == 0 {
        -1
    } else if s.last() == '.' {
        s.len() - 1
    } else {
        last_dot(s.drop_last())
    }
}

/// The file name without its final extension: everything before the last
/// `'.'`, or the whole name when there is no `'.'` or when the only `'.'`
/// leads the name.
pub open spec fn stem_of(s: Seq<char>) -> Seq<char> {
    let d = last_dot(s);
    if d <= 0 {
        s
    } else {
        s.take(d)
    }
}

// ---------------------------------------------------------------------------
// The embedded integer
// ---------------------------------------------------------------------------

pub open spec fn is_ascii_digit(c: char) -> bool {
    ('0' as u32) <= (c as u32) && (c as u32) <= ('9' as u32)
}

/// First index at or after `p` holding a decimal digit, or `s.len()`.
pub open spec fn first_digit(s: Seq<char>, p: int) -> int
    decreases s.len() - p,
{
    if p >= s.len() {
        s.len() as int
    } else if is_ascii_digit(s[p]) {
        p
    } else {
        first_digit(s, p + 1)
    }
}

/// First index at or after `p` holding a non-digit, or `s.len()`.
pub open spec fn run_end(s: Seq<char>, p: int) -> int
    decreases s.len() - p,
{
    if p >= s.len() {
        s.len() as int
    } else if !is_ascii_digit(s[p]) {
        p
    } else {
        run_end(s, p + 1)
    }
}

/// Decimal value of a sequence of digit characters.
pub open spec fn digits_value(ds: Seq<char>) -> int
    decreases ds.len(),
{
    if ds.len() == 0 {
        0
    } else {
        digits_value(ds.drop_last()) * 10 + ((ds.last() as u32) - ('0' as u32))
    }
}

/// The numeric sort key of a stem: the value of the first maximal run of
/// decimal digits, however large; 0 when the stem holds no digit.
pub open spec fn num_key(stem: Seq<char>) -> int {
    let i = first_digit(stem, 0);
    if i >= stem.len() {
        0
    } else {
        digits_value(stem.subrange(i, run_end(stem, i)))
    }
}

// ---------------------------------------------------------------------------
// The file order
// ---------------------------------------------------------------------------

/// `a` sorts no later than `b`: smaller numeric key first, lexical order of
/// the stems on equal numeric keys.
pub open spec fn file_key_le(a: Seq<char>, b: Seq<char>) -> bool {
    let na = num_key(stem_of(a));
    let nb = num_key(stem_of(b));
    na < nb || (na == nb && lex_le(stem_of(a), stem_of(b)))
}

pub open spec fn sorted_by_file_key(s: Seq<Seq<char>>) -> bool {
    forall|i: int, j: int| 0 <= i < j < s.len() ==> file_key_le(s[i], s[j])
}

/// The file order is total.
pub proof fn lemma_file_key_le_total(a: Seq<char>, b: Seq<char>)
    ensures
        file_key_le(a, b) || file_key_le(b, a),
{
    lemma_lex_le_from_total(stem_of(a), stem_of(b), 0);
}

/// The file order is transitive.
pub proof fn lemma_file_key_le_trans(a: Seq<char>, b: Seq<char>, c: Seq<char>)
    requires
        file_key_le(a, b),
        file_key_le(b, c),
    ensures
        file_key_le(a, c),
{
    if num_key(stem_of(a)) == num_key(stem_of(b)) && num_key(stem_of(b)) == num_key(stem_of(c)) {
        lemma_lex_le_from_trans(stem_of(a), stem_of(b), stem_of(c), 0);
    }
}

/// The file order is reflexive.
pub proof fn lemma_file_key_le_refl(a: Seq<char>)
    ensures
        file_key_le(a, a),
{
    lemma_lex_le_from_total(stem_of(a), stem_of(a), 0);
}

/// On equal numeric keys — including the no-digit case, where both keys
/// are 0 — the order falls back to exact lexical comparison of the stems.
pub proof fn lemma_tie_breaks_lexically(a: Seq<char>, b: Seq<char>)
    requires
        num_key(stem_of(a)) == num_key(stem_of(b)),
    ensures
        file_key_le(a, b) <==> lex_le(stem_of(a), stem_of(b)),
{
}

// ---------------------------------------------------------------------------
// The sorted arrangement
// ---------------------------------------------------------------------------

/// Inserts `x` after every element that sorts no later than it.
pub open spec fn insert_ordered(s: Seq<Seq<char>>, x: Seq<char>) -> Seq<Seq<char>>
    decreases s.len(),
{
    if s.len() == 0 {
        seq![x]
    } else if !file_key_le(s[0], x) {
        seq![x] + s
    } else {
        seq![s[0]] + insert_ordered(s.drop_first(), x)
    }
}

/// The stable insertion sort of `s` under the file order.
pub open spec fn sort_spec(s: Seq<Seq<char>>) -> Seq<Seq<char>>
    decreases s.len(),
{
    if s.len() == 0 {
        Seq::empty()
    } else {
        insert_ordered(sort_spec(s.drop_last()), s.last())
    }
}

proof fn lemma_insert_ordered_multiset(s: Seq<Seq<char>>, x: Seq<char>)
    ensures
        insert_ordered(s, x).to_multiset() == s.to_multiset().insert(x),
    decreases s.len(),
{
    broadcast use vstd::seq_lib::group_to_multiset_ensures;

    if s.len() == 0 {
        assert(seq![x] =~= Seq::<Seq<char>>::empty().push(x));
        assert(Seq::<Seq<char>>::empty().push(x).to_multiset() =~= Seq::<
            Seq<char>,
        >::empty().to_multiset().insert(x));
    } else if !file_key_le(s[0], x) {
        lemma_multiset_commutative(seq![x], s);
        assert(seq![x] =~= Seq::<Seq<char>>::empty().push(x));
        assert(seq![x].to_multiset() =~= Multiset::<Seq<char>>::empty().insert(x));
        assert((seq![x] + s).to_multiset() =~= s.to_multiset().insert(x));
    } else {
        lemma_insert_ordered_multiset(s.drop_first(), x);
        lemma_multiset_commutative(seq![s[0]], insert_ordered(s.drop_first(), x));
        assert(seq![s[0]] =~= Seq::<Seq<char>>::empty().push(s[0]));
        assert(seq![s[0]].to_multiset() =~= Multiset::<Seq<char>>::empty().insert(s[0]));
        assert(s =~= seq![s[0]] + s.drop_first());
        lemma_multiset_commutative(seq![s[0]], s.drop_first());
        assert(insert_ordered(s, x).to_multiset() =~= s.to_multiset().insert(x));
    }
}

/// Every element of the insertion result is bounded below by any bound of
/// `s` and `x`.
proof fn lemma_insert_ordered_bound(s: Seq<Seq<char>>, x: Seq<char>, b: Seq<char>)
    requires
        file_key_le(b, x),
        forall|i: int| 0 <= i < s.len() ==> file_key_le(b, #[trigger] s[i]),
    ensures
        forall|i: int|
            0 <= i < insert_ordered(s, x).len() ==> file_key_le(b, #[trigger] insert_ordered(s, x)[i]),
    decreases s.len(),
{
    let r = insert_ordered(s, x);
    if s.len() == 0 {
        assert forall|i: int| 0 <= i < r.len() implies file_key_le(b, #[trigger] r[i]) by {
            assert(r[i] == x);
        }
    } else if !file_key_le(s[0], x) {
        assert forall|i: int| 0 <= i < r.len() implies file_key_le(b, #[trigger] r[i]) by {
            if i == 0 {
                assert(r[i] == x);
            } else {
                assert(r[i] == s[i - 1]);
            }
        }
    } else {
        assert(forall|i: int|
            0 <= i < s.drop_first().len() ==> file_key_le(b, #[trigger] s.drop_first()[i]));
        lemma_insert_ordered_bound(s.drop_first(), x, b);
        let t = insert_ordered(s.drop_first(), x);
        assert forall|i: int| 0 <= i < r.len() implies file_key_le(b, #[trigger] r[i]) by {
            if i == 0 {
                assert(r[i] == s[0]);
            } else {
                assert(r[i] == t[i - 1]);
            }
        }
    }
}

proof fn lemma_insert_ordered_sorted(s: Seq<Seq<char>>, x: Seq<char>)
    requires
        sorted_by_file_key(s),
    ensures
        sorted_by_file_key(insert_ordered(s, x)),
    decreases s.len(),
{
    let r = insert_ordered(s, x);
    if s.len() == 0 {
    } else if !file_key_le(s[0], x) {
        lemma_file_key_le_total(s[0], x);
        assert forall|i: int, j: int| 0 <= i < j < r.len() implies file_key_le(r[i], r[j]) by {
            if i == 0 {
                if j == 1 {
                    assert(r[j] == s[0]);
                } else {
                    lemma_file_key_le_trans(x, s[0], s[j - 1]);
                }
            }
        }
    } else {
        assert(sorted_by_file_key(s.drop_first())) by {
            assert(forall|i: int, j: int|
                0 <= i < j < s.drop_first().len() ==> file_key_le(
                    #[trigger] s.drop_first()[i],
                    #[trigger] s.drop_first()[j],
                ));
        }
        lemma_insert_ordered_sorted(s.drop_first(), x);
        let t = insert_ordered(s.drop_first(), x);
        assert(forall|i: int|
            0 <= i < s.drop_first().len() ==> file_key_le(s[0], #[trigger] s.drop_first()[i]));
        lemma_insert_ordered_bound(s.drop_first(), x, s[0]);
        assert forall|i: int, j: int| 0 <= i < j < r.len() implies file_key_le(r[i], r[j]) by {
            if i == 0 {
                assert(r[j] == t[j - 1]);
            } else {
                assert(r[i] == t[i - 1] && r[j] == t[j - 1]);
            }
        }
    }
}

/// The sorted arrangement holds exactly the input's file names.
pub proof fn lemma_sort_spec_multiset(s: Seq<Seq<char>>)
    ensures
        sort_spec(s).to_multiset() == s.to_multiset(),
    decreases s.len(),
{
    broadcast use vstd::seq_lib::group_to_multiset_ensures;

    if s.len() > 0 {
        lemma_sort_spec_multiset(s.drop_last());
        lemma_insert_ordered_multiset(sort_spec(s.drop_last()), s.last());
        assert(s =~= s.drop_last().push(s.last()));
        assert(s.drop_last().push(s.last()).to_multiset() =~= s.drop_last().to_multiset().insert(
            s.last(),
        ));
    }
}

/// The sorted arrangement is sorted under the file order.
pub proof fn lemma_sort_spec_sorted(s: Seq<Seq<char>>)
    ensures
        sorted_by_file_key(sort_spec(s)),
    decreases s.len(),
{
    if s.len() > 0 {
        lemma_sort_spec_sorted(s.drop_last());
        lemma_insert_ordered_sorted(sort_spec(s.drop_last()), s.last());
    }
}

proof fn lemma_insert_ordered_append(s: Seq<Seq<char>>, x: Seq<char>)
    requires
        forall|i: int| 0 <= i < s.len() ==> file_key_le(#[trigger] s[i], x),
    ensures
        insert_ordered(s, x) == s.push(x),
    decreases s.len(),
{
    if s.len() == 0 {
        assert(insert_ordered(s, x) =~= s.push(x));
    } else {
        assert(forall|i: int|
            0 <= i < s.drop_first().len() ==> file_key_le(#[trigger] s.drop_first()[i], x));
        lemma_insert_ordered_append(s.drop_first(), x);
        assert(insert_ordered(s, x) =~= s.push(x));
    }
}

/// Sorting a sequence that is already in order returns it unchanged, so
/// sorting is idempotent.
pub proof fn lemma_sort_spec_of_sorted(s: Seq<Seq<char>>)
    requires
        sorted_by_file_key(s),
    ensures
        sort_spec(s) == s,
    decreases s.len(),
{
    if s.len() > 0 {
        assert(sorted_by_file_key(s.drop_last())) by {
            assert(forall|i: int, j: int|
                0 <= i < j < s.drop_last().len() ==> file_key_le(
                    #[trigger] s.drop_last()[i],
                    #[trigger] s.drop_last()[j],
                ));
        }
        lemma_sort_spec_of_sorted(s.drop_last());
        assert(forall|i: int|
            0 <= i < s.drop_last().len() ==> file_key_le(#[trigger] s.drop_last()[i], s.last()));
        lemma_insert_ordered_append(s.drop_last(), s.last());
        assert(sort_spec(s) =~= s);
    }
}

/// Sorting twice gives the same arrangement as sorting once.
pub proof fn lemma_sort_spec_idempotent(s: Seq<Seq<char>>)
    ensures
        sort_spec(sort_spec(s)) == sort_spec(s),
{
    lemma_sort_spec_sorted(s);
    lemma_sort_spec_of_sorted(sort_spec(s));
}

/// In a sorted arrangement, a file whose embedded integer is smaller than
/// another's stands strictly earlier, whatever the stems look like.
pub proof fn lemma_smaller_number_sorts_earlier(s: Seq<Seq<char>>, i: int, j: int)
    requires
        sorted_by_file_key(s),
        0 <= i < s.len(),
        0 <= j < s.len(),
        num_key(stem_of(s[i])) < num_key(stem_of(s[j])),
    ensures
        i < j,
{
    if j < i {
        assert(file_key_le(s[j], s[i]));
    }
}

// ---------------------------------------------------------------------------
// Executable comparison
// ---------------------------------------------------------------------------

fn lex_le_exec(a: &Vec<char>, b: &Vec<char>) -> (r: bool)
    ensures
        r == lex_le(a@, b@),
{
    let mut i: usize = 0;
    loop
        invariant
            i <= a@.len(),
            lex_le(a@, b@) == lex_le_from(a@, b@, i as int),
        decreases a@.len() - i,
    {
        if i == a.len() {
            return true;
        }
        if i >= b.len() {
            return false;
        }
        let ua = a[i] as u32;
        let ub = b[i] as u32;
        if ua < ub {
            return true;
        }
        if ua > ub {
            return false;
        }
        i += 1;
    }
}

/// Length of the stem of `name`, so that the stem is `name@.take(r)`.
pub(crate) fn stem_len_exec(name: &Vec<char>) -> (r: usize)
    ensures
        r <= name@.len(),
        stem_of(name@) == name@.take(r as int),
{
    let n = name.len();
    let mut i: usize = n;
    while i > 0
        invariant
            i <= n,
            n == name@.len(),
            last_dot(name@) == last_dot(name@.take(i as int)),
        decreases i,
    {
        if name[i - 1] == '.' {
            proof {
                assert(name@.take(i as int).last() == '.');
                assert(last_dot(name@) == i - 1);
            }
            if i - 1 == 0 {
                proof {
                    assert(stem_of(name@) =~= name@.take(n as int));
                }
                return n;
            }
            proof {
                assert(stem_of(name@) == name@.take(i - 1));
            }
            return i - 1;
        }
        proof {
            assert(name@.take(i as int).drop_last() =~= name@.take(i as int - 1));
        }
        i -= 1;
    }
    proof {
        assert(name@.take(0) =~= Seq::<char>::empty());
        assert(last_dot(name@) == -1);
        assert(stem_of(name@) =~= name@.take(n as int));
    }
    n
}

/// Copy of the first `n` characters of `v`.
fn prefix_chars(v: &Vec<char>, n: usize) -> (r: Vec<char>)
    requires
        n <= v@.len(),
    ensures
        r@ == v@.take(n as int),
{
    let mut r: Vec<char> = Vec::new();
    let mut i: usize = 0;
    while i < n
        invariant
            i <= n,
            n <= v@.len(),
            r@ =~= v@.take(i as int),
        decreases n - i,
    {
        r.push(v[i]);
        i += 1;
        proof {
            assert(r@ =~= v@.take(i as int));
        }
    }
    r
}

proof fn lemma_digits_value_nonneg(ds: Seq<char>)
    requires
        forall|k: int| 0 <= k < ds.len() ==> is_ascii_digit(#[trigger] ds[k]),
    ensures
        digits_value(ds) >= 0,
    decreases ds.len(),
{
    if ds.len() > 0 {
        assert(forall|k: int|
            0 <= k < ds.drop_last().len() ==> is_ascii_digit(#[trigger] ds.drop_last()[k]));
        lemma_digits_value_nonneg(ds.drop_last());
    }
}

/// Powers of ten.
pub open spec fn pow10(n: int) -> int
    decreases n,
{
    if n <= 0 {
        1
    } else {
        10 * pow10(n - 1)
    }
}

proof fn lemma_pow10_pos(n: int)
    ensures
        pow10(n) >= 1,
    decreases n,
{
    if n > 0 {
        lemma_pow10_pos(n - 1);
    }
}

proof fn lemma_pow10_le(m: int, n: int)
    requires
        m <= n,
    ensures
        pow10(m) <= pow10(n),
    decreases n - m,
{
    if m < n {
        lemma_pow10_le(m, n - 1);
        lemma_pow10_pos(n - 1);
    }
}

/// A digit run's value stays below the power of ten of its length.
proof fn lemma_digits_value_upper(ds: Seq<char>)
    requires
        forall|k: int| 0 <= k < ds.len() ==> is_ascii_digit(#[trigger] ds[k]),
    ensures
        digits_value(ds) < pow10(ds.len() as int),
    decreases ds.len(),
{
    if ds.len() > 0 {
        assert(forall|k: int|
            0 <= k < ds.drop_last().len() ==> is_ascii_digit(#[trigger] ds.drop_last()[k]));
        lemma_digits_value_upper(ds.drop_last());
        assert(is_ascii_digit(ds.last()));
    }
}

/// A digit run that does not lead with '0' reaches the power of ten of
/// its length less one.
proof fn lemma_digits_value_lower(ds: Seq<char>)
    requires
        forall|k: int| 0 <= k < ds.len() ==> is_ascii_digit(#[trigger] ds[k]),
        ds.len() > 0,
        ds[0] != '0',
    ensures
        digits_value(ds) >= pow10(ds.len() - 1),
    decreases ds.len(),
{
    if ds.len() == 1 {
        assert(ds.drop_last() =~= Seq::<char>::empty());
        assert(ds.last() == ds[0]);
        assert(is_ascii_digit(ds[0]));
        assert((ds.last() as u32) != ('0' as u32)) by {
            if (ds.last() as u32) == ('0' as u32) {
                vstd::utf8::char_u32_cast(ds.last(), ds.last() as u32);
                vstd::utf8::char_u32_cast('0', '0' as u32);
            }
        }
        assert((ds.last() as u32) - ('0' as u32) >= 1);
        assert(digits_value(ds) >= 1);
        assert(pow10(ds.len() - 1) == 1);
    } else {
        assert(forall|k: int|
            0 <= k < ds.drop_last().len() ==> is_ascii_digit(#[trigger] ds.drop_last()[k]));
        assert(ds.drop_last()[0] == ds[0]);
        lemma_digits_value_lower(ds.drop_last());
        assert(is_ascii_digit(ds.last()));
        assert((ds.last() as u32) - ('0' as u32) >= 0);
        assert(pow10(ds.len() - 1) == 10 * pow10(ds.len() - 2));
        assert(digits_value(ds) >= 10 * digits_value(ds.drop_last()));
        assert(digits_value(ds) >= pow10(ds.len() - 1));
    }
}

/// A leading zero does not change a digit run's value.
proof fn lemma_digits_value_drop_leading_zero(ds: Seq<char>)
    requires
        forall|k: int| 0 <= k < ds.len() ==> is_ascii_digit(#[trigger] ds[k]),
        ds.len() > 0,
        ds[0] == '0',
    ensures
        digits_value(ds) == digits_value(ds.drop_first()),
    decreases ds.len(),
{
    if ds.len() == 1 {
        assert(ds.drop_last() =~= Seq::<char>::empty());
        assert(ds.drop_first() =~= Seq::<char>::empty());
    } else {
        let dl = ds.drop_last();
        assert(forall|k: int| 0 <= k < dl.len() ==> is_ascii_digit(#[trigger] dl[k]));
        assert(dl[0] == ds[0]);
        lemma_digits_value_drop_leading_zero(dl);
        assert(ds.drop_first().drop_last() =~= dl.drop_first());
        assert(ds.drop_first().last() == ds.last());
        assert(ds.drop_first().len() > 0);
    }
}

/// Removing any number of leading zeros keeps a digit run's value.
proof fn lemma_digits_value_skip_zeros(ds: Seq<char>, k: int)
    requires
        0 <= k <= ds.len(),
        forall|t: int| 0 <= t < ds.len() ==> is_ascii_digit(#[trigger] ds[t]),
        forall|t: int| 0 <= t < k ==> ds[t] == '0',
    ensures
        digits_value(ds.skip(k)) == digits_value(ds),
    decreases k,
{
    if k > 0 {
        lemma_digits_value_drop_leading_zero(ds);
        assert(ds.drop_first() =~= ds.skip(1));
        assert(forall|t: int|
            0 <= t < ds.skip(1).len() ==> is_ascii_digit(#[trigger] ds.skip(1)[t]));
        assert(forall|t: int| 0 <= t < k - 1 ==> ds.skip(1)[t] == '0');
        lemma_digits_value_skip_zeros(ds.skip(1), k - 1);
        assert(ds.skip(1).skip(k - 1) =~= ds.skip(k));
    } else {
        assert(ds.skip(0) =~= ds);
    }
}

/// Equal-length digit runs that agree before a position where the first
/// has the smaller digit compare by that digit.
proof fn lemma_digits_value_prefix_lt(a: Seq<char>, b: Seq<char>, t: int)
    requires
        a.len() == b.len(),
        forall|k: int| 0 <= k < a.len() ==> is_ascii_digit(#[trigger] a[k]),
        forall|k: int| 0 <= k < b.len() ==> is_ascii_digit(#[trigger] b[k]),
        0 <= t < a.len(),
        forall|k: int| 0 <= k < t ==> a[k] == b[k],
        (a[t] as u32) < (b[t] as u32),
    ensures
        digits_value(a) < digits_value(b),
    decreases a.len(),
{
    if t == a.len() - 1 {
        assert(a.drop_last() =~= b.drop_last());
        assert(a.last() == a[t] && b.last() == b[t]);
    } else {
        let ad = a.drop_last();
        let bd = b.drop_last();
        assert(forall|k: int| 0 <= k < ad.len() ==> is_ascii_digit(#[trigger] ad[k]));
        assert(forall|k: int| 0 <= k < bd.len() ==> is_ascii_digit(#[trigger] bd[k]));
        assert(forall|k: int| 0 <= k < t ==> ad[k] == bd[k]);
        assert(ad[t] == a[t] && bd[t] == b[t]);
        lemma_digits_value_prefix_lt(ad, bd, t);
        assert(is_ascii_digit(a.last()));
        assert(is_ascii_digit(b.last()));
    }
}

fn first_digit_exec(stem: &Vec<char>) -> (r: usize)
    ensures
        r as int == first_digit(stem@, 0),
        r <= stem@.len(),
{
    let n = stem.len();
    let mut i: usize = 0;
    while i < n
        invariant
            i <= n,
            n == stem@.len(),
            first_digit(stem@, 0) == first_digit(stem@, i as int),
        decreases n - i,
    {
        let u = stem[i] as u32;
        if 48 <= u && u <= 57 {
            return i;
        }
        i += 1;
    }
    n
}

fn run_end_exec(stem: &Vec<char>, p: usize) -> (r: usize)
    requires
        p <= stem@.len(),
    ensures
        r as int == run_end(stem@, p as int),
        p <= r <= stem@.len(),
        forall|t: int| p <= t < r ==> is_ascii_digit(#[trigger] stem@[t]),
{
    let n = stem.len();
    let mut i: usize = p;
    while i < n
        invariant
            p <= i <= n,
            n == stem@.len(),
            run_end(stem@, p as int) == run_end(stem@, i as int),
            forall|t: int| p <= t < i ==> is_ascii_digit(#[trigger] stem@[t]),
        decreases n - i,
    {
        let u = stem[i] as u32;
        if !(48 <= u && u <= 57) {
            return i;
        }
        i += 1;
    }
    n
}

/// Copy of the characters `v[a..b]`.
fn sub_chars(v: &Vec<char>, a: usize, b: usize) -> (r: Vec<char>)
    requires
        a <= b <= v@.len(),
    ensures
        r@ == v@.subrange(a as int, b as int),
{
    let mut r: Vec<char> = Vec::new();
    let mut i: usize = a;
    while i < b
        invariant
            a <= i <= b <= v@.len(),
            r@ =~= v@.subrange(a as int, i as int),
        decreases b - i,
    {
        r.push(v[i]);
        i += 1;
        proof {
            assert(r@ =~= v@.subrange(a as int, i as int));
        }
    }
    proof {
        assert(r@ =~= v@.subrange(a as int, b as int));
    }
    r
}

/// First index in `[i, j)` that does not hold '0', or `j`.
fn first_nonzero(stem: &Vec<char>, i: usize, j: usize) -> (z: usize)
    requires
        i <= j <= stem@.len(),
    ensures
        i <= z <= j,
        forall|t: int| i <= t < z ==> stem@[t] == '0',
        z < j ==> stem@[z as int] != '0',
{
    let mut z: usize = i;
    while z < j
        invariant
            i <= z <= j,
            j <= stem@.len(),
            forall|t: int| i <= t < z ==> stem@[t] == '0',
        decreases j - z,
    {
        if stem[z] != '0' {
            return z;
        }
        z += 1;
    }
    j
}

/// The first maximal digit run of a stem, with its leading zeros removed,
/// so that the run's value is the stem's numeric key.
fn trimmed_run(stem: &Vec<char>) -> (r: Vec<char>)
    ensures
        forall|t: int| 0 <= t < r@.len() ==> is_ascii_digit(#[trigger] r@[t]),
        r@.len() > 0 ==> r@[0] != '0',
        digits_value(r@) == num_key(stem@),
{
    let i = first_digit_exec(stem);
    if i == stem.len() {
        let r: Vec<char> = Vec::new();
        proof {
            assert(r@ =~= Seq::<char>::empty());
        }
        return r;
    }
    let j = run_end_exec(stem, i);
    let z = first_nonzero(stem, i, j);
    let r = sub_chars(stem, z, j);
    proof {
        let run = stem@.subrange(i as int, j as int);
        assert(num_key(stem@) == digits_value(run));
        assert(forall|t: int| 0 <= t < run.len() ==> is_ascii_digit(#[trigger] run[t]));
        assert(forall|t: int| 0 <= t < z - i ==> run[t] == '0');
        lemma_digits_value_skip_zeros(run, z as int - i as int);
        assert(run.skip(z as int - i as int) =~= stem@.subrange(z as int, j as int));
        assert(digits_value(r@) == num_key(stem@));
    }
    r
}

/// Compares the numeric keys of two stems by their trimmed digit runs —
/// shorter run first, equal-length runs digit by digit — so that no
/// bounded integer ever holds the value.  Returns (smaller, equal).
fn num_key_compare(sa: &Vec<char>, sb: &Vec<char>) -> (r: (bool, bool))
    ensures
        r.0 == (num_key(sa@) < num_key(sb@)),
        r.1 == (num_key(sa@) == num_key(sb@)),
{
    let ra = trimmed_run(sa);
    let rb = trimmed_run(sb);
    proof {
        lemma_digits_value_nonneg(ra@);
        lemma_digits_value_nonneg(rb@);
    }
    if ra.len() < rb.len() {
        proof {
            lemma_digits_value_upper(ra@);
            lemma_digits_value_lower(rb@);
            lemma_pow10_le(ra@.len() as int, rb@.len() - 1);
            assert(digits_value(ra@) < digits_value(rb@));
        }
        return (true, false);
    }
    if ra.len() > rb.len() {
        proof {
            lemma_digits_value_upper(rb@);
            lemma_digits_value_lower(ra@);
            lemma_pow10_le(rb@.len() as int, ra@.len() - 1);
            assert(digits_value(rb@) < digits_value(ra@));
        }
        return (false, false);
    }
    let n = ra.len();
    let mut t: usize = 0;
    while t < n
        invariant
            t <= n,
            n == ra@.len(),
            n == rb@.len(),
            forall|k: int| 0 <= k < ra@.len() ==> is_ascii_digit(#[trigger] ra@[k]),
            forall|k: int| 0 <= k < rb@.len() ==> is_ascii_digit(#[trigger] rb@[k]),
            digits_value(ra@) == num_key(sa@),
            digits_value(rb@) == num_key(sb@),
            forall|k: int| 0 <= k < t ==> ra@[k] == rb@[k],
        decreases n - t,
    {
        let ca = ra[t] as u32;
        let cb = rb[t] as u32;
        if ca < cb {
            proof {
                lemma_digits_value_prefix_lt(ra@, rb@, t as int);
            }
            return (true, false);
        }
        if ca > cb {
            proof {
                lemma_digits_value_prefix_lt(rb@, ra@, t as int);
            }
            return (false, false);
        }
        proof {
            vstd::utf8::char_u32_cast(ra@[t as int], ca);
            vstd::utf8::char_u32_cast(rb@[t as int], cb);
            assert(ra@[t as int] == rb@[t as int]);
        }
        t += 1;
    }
    proof {
        assert(ra@ =~= rb@);
    }
    (false, true)
}

/// Whether `a` sorts no later than `b` under the file order.
pub fn le_by_key(a: &String, b: &String) -> (r: bool)
    ensures
        r == file_key_le(a@, b@),
{
    let ac = chars_of(a.as_str());
    let bc = chars_of(b.as_str());
    let la = stem_len_exec(&ac);
    let lb = stem_len_exec(&bc);
    let stem_a = prefix_chars(&ac, la);
    let stem_b = prefix_chars(&bc, lb);
    let keys = num_key_compare(&stem_a, &stem_b);
    if keys.0 {
        true
    } else if !keys.1 {
        false
    } else {
        lex_le_exec(&stem_a, &stem_b)
    }
}

// ---------------------------------------------------------------------------
// The sort itself
// ---------------------------------------------------------------------------

/// The character sequences of a sequence of strings.
pub open spec fn views(s: Seq<String>) -> Seq<Seq<char>> {
    s.map_values(|x: String| x@)
}

proof fn lemma_insert_ordered_position(s: Seq<Seq<char>>, x: Seq<char>, j: int)
    requires
        0 <= j <= s.len(),
        forall|t: int| 0 <= t < j ==> file_key_le(#[trigger] s[t], x),
        j < s.len() ==> !file_key_le(s[j], x),
    ensures
        insert_ordered(s, x) == s.take(j) + seq![x] + s.skip(j),
    decreases j,
{
    if j == 0 {
        if s.len() == 0 {
            assert(insert_ordered(s, x) =~= s.take(0) + seq![x] + s.skip(0));
        } else {
            assert(!file_key_le(s[0], x));
            assert(insert_ordered(s, x) =~= s.take(0) + seq![x] + s.skip(0));
        }
    } else {
        assert(file_key_le(s[0], x));
        let sd = s.drop_first();
        assert(forall|t: int| 0 <= t < j - 1 ==> file_key_le(#[trigger] sd[t], x));
        lemma_insert_ordered_position(sd, x, j - 1);
        assert(insert_ordered(s, x) =~= s.take(j) + seq![x] + s.skip(j)) by {
            assert(sd.take(j - 1) =~= s.subrange(1, j));
            assert(sd.skip(j - 1) =~= s.skip(j));
            assert(seq![s[0]] + (sd.take(j - 1) + seq![x] + sd.skip(j - 1)) =~= s.take(j) + seq![x]
                + s.skip(j));
        }
    }
}

fn insertion_point(out: &Vec<String>, x: &String) -> (j: usize)
    ensures
        j <= out@.len(),
        forall|t: int| 0 <= t < j ==> file_key_le(#[trigger] views(out@)[t], x@),
        j < out@.len() ==> !file_key_le(views(out@)[j as int], x@),
{
    let mut j: usize = 0;
    loop
        invariant
            j <= out@.len(),
            forall|t: int| 0 <= t < j ==> file_key_le(#[trigger] views(out@)[t], x@),
        decreases out@.len() - j,
    {
        if j == out.len() {
            return j;
        }
        if !le_by_key(&out[j], x) {
            return j;
        }
        j += 1;
    }
}

/// Sorts archive file names by embedded integer, then lexically by stem.
///
/// The result is the stable insertion sort of the input under the file
/// order, so equal keys keep their relative order and sorting a sorted
/// sequence returns it unchanged.
pub fn sort_files(files: Vec<String>) -> (r: Vec<String>)
    ensures
        views(r@) == sort_spec(views(files@)),
{
    let ghost orig = views(files@);
    let mut rest = files;
    let mut out: Vec<String> = Vec::new();
    proof {
        assert(views(rest@) =~= orig.skip(0));
        assert(views(out@) =~= sort_spec(orig.take(0)));
    }
    while rest.len() > 0
        invariant
            rest@.len() <= orig.len(),
            views(rest@) =~= orig.skip(orig.len() - rest@.len()),
            views(out@) == sort_spec(orig.take(orig.len() - rest@.len())),
        decreases rest@.len(),
    {
        let ghost k = orig.len() - rest@.len();
        let x = rest.remove(0);
        proof {
            assert(views(rest@.insert(0, x)) =~= orig.skip(k));
            assert(x@ == orig[k]);
            assert(views(rest@) =~= orig.skip(k + 1));
        }
        let j = insertion_point(&out, &x);
        let ghost old_out = views(out@);
        out.insert(j, x);
        proof {
            lemma_insert_ordered_position(old_out, x@, j as int);
            assert(views(out@) =~= old_out.take(j as int) + seq![x@] + old_out.skip(j as int));
            assert(orig.take(k + 1).drop_last() =~= orig.take(k));
            assert(orig.take(k + 1).last() == orig[k]);
            assert(views(out@) == insert_ordered(sort_spec(orig.take(k)), orig[k]));
            assert(views(out@) == sort_spec(orig.take(k + 1)));
        }
    }
    proof {
        assert(orig.take(orig.len() as int) =~= orig);
        assert(views(out@) == sort_spec(orig));
    }
    out
}

} // verus!
