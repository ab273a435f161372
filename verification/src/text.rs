//! Character-level helpers for line-oriented text formats: splitting at a
//! character, Unicode whitespace trimming, prefix tests and unsigned decimal
//! numbers as `str::parse` reads them.
use vstd::prelude::*;
use vstd::std_specs::iter::IteratorSpec;
use crate::sdp::{dec, digit};

verus! {

/// Unicode `White_Space` — what `char::is_whitespace` accepts.
pub open spec fn is_ws(c: char) -> bool {
    let v = c as u32;
    ||| 9 <= v <= 13
    ||| v == 32
    ||| v == 0x85
    ||| v == 0xA0
    ||| v == 0x1680
    ||| 0x2000 <= v <= 0x200A
    ||| v == 0x2028
    ||| v == 0x2029
    ||| v == 0x202F
    ||| v == 0x205F
    ||| v == 0x3000
}

pub fn ws(c: char) -> (r: bool)
    ensures
        r == is_ws(c),
{
    let v = c as u32;
    (9 <= v && v <= 13) || v == 32 || v == 0x85 || v == 0xA0 || v == 0x1680 || (0x2000 <= v && v
        <= 0x200A) || v == 0x2028 || v == 0x2029 || v == 0x202F || v == 0x205F || v == 0x3000
}

/// The characters of a string slice, in order.
pub fn chars_of(s: &str) -> (v: Vec<char>)
    ensures
        v@ == s@,
{
    broadcast use vstd::string::group_string_axioms;

    let mut it = s.chars();
    let mut v: Vec<char> = Vec::new();
    loop
        invariant
            v@ + it.remaining() == s@,
            it.obeys_prophetic_iter_laws(),
            it.decrease() is Some,
        decreases it.decrease()->0,
    {
        let ghost before = it.remaining();
        match it.next() {
            Some(c) => {
                v.push(c);
                assert(v@ + it.remaining() =~= s@) by {
                    assert(before =~= seq![c] + it.remaining());
                }
            },
            None => {
                assert(v@ =~= s@);
                return v;
            },
        }
    }
}

/// Index of the first `c` in `s`, or `s.len()` when there is none.
pub open spec fn find(s: Seq<char>, c: char) -> nat
    decreases s.len(),
{
    if s.len() == 0 {
        0
    } else if s[0] == c {
        0
    } else {
        1 + find(s.drop_first(), c)
    }
}

pub proof fn lemma_find_bound(s: Seq<char>, c: char)
    ensures
        find(s, c) <= s.len(),
        find(s, c) < s.len() ==> s[find(s, c) as int] == c,
        forall|k: int| 0 <= k < find(s, c) ==> s[k] != c,
    decreases s.len(),
{
    if s.len() > 0 && s[0] != c {
        lemma_find_bound(s.drop_first(), c);
        assert forall|k: int| 0 <= k < find(s, c) implies s[k] != c by {
            if k > 0 {
                assert(s[k] == s.drop_first()[k - 1]);
            }
        }
    }
}

/// `find` stops at the first `c`: where none occurs before `j` and `c` is at
/// `j` (or `j` is the end), `find` is `j`.
pub proof fn lemma_find_at(s: Seq<char>, c: char, j: int)
    requires
        0 <= j <= s.len(),
        forall|k: int| 0 <= k < j ==> s[k] != c,
        j == s.len() || s[j] == c,
    ensures
        find(s, c) == j,
    decreases j,
{
    if j > 0 {
        assert forall|k: int| 0 <= k < j - 1 implies s.drop_first()[k] != c by {
            assert(s.drop_first()[k] == s[k + 1]);
        }
        lemma_find_at(s.drop_first(), c, j - 1);
    }
}

/// Index of the first `c` at or after `lo` in `cs[lo..hi]`, or `hi`.
pub fn find_from(cs: &Vec<char>, lo: usize, hi: usize, c: char) -> (j: usize)
    requires
        lo <= hi <= cs.len(),
    ensures
        j == lo + find(cs@.subrange(lo as int, hi as int), c),
        lo <= j <= hi,
{
    let mut j = lo;
    while j < hi && cs[j] != c
        invariant
            lo <= j <= hi <= cs.len(),
            forall|k: int| lo <= k < j ==> cs@[k] != c,
        decreases hi - j,
    {
        j = j + 1;
    }
    proof {
        lemma_find_at(cs@.subrange(lo as int, hi as int), c, j - lo);
    }
    j
}

/// `s` without its leading whitespace.
pub open spec fn trim_start(s: Seq<char>) -> Seq<char>
    decreases s.len(),
{
    if s.len() > 0 && is_ws(s[0]) {
        trim_start(s.drop_first())
    } else {
        s
    }
}

/// `s` without its trailing whitespace.
pub open spec fn trim_end(s: Seq<char>) -> Seq<char>
    decreases s.len(),
{
    if s.len() > 0 && is_ws(s.last()) {
        trim_end(s.drop_last())
    } else {
        s
    }
}

/// `s` without leading and trailing whitespace, as `str::trim` gives it.
pub open spec fn trim(s: Seq<char>) -> Seq<char> {
    trim_end(trim_start(s))
}

proof fn lemma_trim_start_at(s: Seq<char>, j: int)
    requires
        0 <= j <= s.len(),
        forall|k: int| 0 <= k < j ==> is_ws(#[trigger] s[k]),
        j == s.len() || !is_ws(s[j]),
    ensures
        trim_start(s) == s.skip(j),
    decreases j,
{
    if j == 0 {
        assert(s.skip(0) =~= s);
    } else {
        assert forall|k: int| 0 <= k < j - 1 implies is_ws(#[trigger] s.drop_first()[k]) by {
            assert(s.drop_first()[k] == s[k + 1]);
        }
        lemma_trim_start_at(s.drop_first(), j - 1);
        assert(s.drop_first().skip(j - 1) =~= s.skip(j));
    }
}

proof fn lemma_trim_end_at(s: Seq<char>, j: int)
    requires
        0 <= j <= s.len(),
        forall|k: int| j <= k < s.len() ==> is_ws(#[trigger] s[k]),
        j == 0 || !is_ws(s[j - 1]),
    ensures
        trim_end(s) == s.take(j),
    decreases s.len() - j,
{
    if j == s.len() {
        assert(s.take(j) =~= s);
    } else {
        assert forall|k: int| j <= k < s.drop_last().len() implies is_ws(
            #[trigger] s.drop_last()[k],
        ) by {
            assert(s.drop_last()[k] == s[k]);
        }
        lemma_trim_end_at(s.drop_last(), j);
        assert(s.drop_last().take(j) =~= s.take(j));
    }
}

/// The bounds of `trim(cs[lo..hi])` within `cs`.
pub fn trim_range(cs: &Vec<char>, lo: usize, hi: usize) -> (r: (usize, usize))
    requires
        lo <= hi <= cs.len(),
    ensures
        lo <= r.0 <= r.1 <= hi,
        cs@.subrange(r.0 as int, r.1 as int) == trim(cs@.subrange(lo as int, hi as int)),
{
    let mut a = lo;
    while a < hi && ws(cs[a])
        invariant
            lo <= a <= hi <= cs.len(),
            forall|k: int| lo <= k < a ==> is_ws(#[trigger] cs@[k]),
        decreases hi - a,
    {
        a = a + 1;
    }
    let mut b = hi;
    while b > a && ws(cs[b - 1])
        invariant
            lo <= a <= b <= hi <= cs.len(),
            forall|k: int| b <= k < hi ==> is_ws(#[trigger] cs@[k]),
        decreases b - a,
    {
        b = b - 1;
    }
    proof {
        let s = cs@.subrange(lo as int, hi as int);
        assert forall|k: int| 0 <= k < a - lo implies is_ws(#[trigger] s[k]) by {
            assert(s[k] == cs@[lo + k]);
        }
        lemma_trim_start_at(s, a - lo);
        let t = s.skip(a - lo);
        assert(t =~= cs@.subrange(a as int, hi as int));
        assert forall|k: int| b - a <= k < t.len() implies is_ws(#[trigger] t[k]) by {
            assert(t[k] == cs@[a + k]);
        }
        lemma_trim_end_at(t, b - a);
        assert(t.take(b - a) =~= cs@.subrange(a as int, b as int));
    }
    (a, b)
}

/// Whether `cs[lo..hi]` begins with `p`.
pub fn starts_with_at(cs: &Vec<char>, lo: usize, hi: usize, p: &str) -> (r: bool)
    requires
        lo <= hi <= cs.len(),
    ensures
        r == (p@.len() <= hi - lo && cs@.subrange(lo as int, lo + p@.len()) == p@),
{
    let n = p.unicode_len();
    if n > hi - lo {
        return false;
    }
    let mut i: usize = 0;
    while i < n
        invariant
            n == p@.len(),
            n <= hi - lo,
            lo <= hi <= cs.len(),
            i <= n,
            forall|k: int| 0 <= k < i ==> cs@[lo + k] == p@[k],
        decreases n - i,
    {
        if cs[lo + i] != p.get_char(i) {
            assert(cs@.subrange(lo as int, lo + p@.len())[i as int] != p@[i as int]);
            return false;
        }
        i = i + 1;
    }
    assert(cs@.subrange(lo as int, lo + p@.len()) =~= p@);
    true
}

/// Whether `cs[lo..hi]` is exactly `p`.
pub fn equals_at(cs: &Vec<char>, lo: usize, hi: usize, p: &str) -> (r: bool)
    requires
        lo <= hi <= cs.len(),
    ensures
        r == (cs@.subrange(lo as int, hi as int) == p@),
{
    let n = p.unicode_len();
    if n != hi - lo {
        return false;
    }
    let r = starts_with_at(cs, lo, hi, p);
    assert(cs@.subrange(lo as int, lo + p@.len()) =~= cs@.subrange(lo as int, hi as int));
    r
}

pub open spec fn is_digit(c: char) -> bool {
    48 <= (c as u32) <= 57
}

pub open spec fn all_digits(s: Seq<char>) -> bool {
    forall|k: int| 0 <= k < s.len() ==> is_digit(#[trigger] s[k])
}

/// The value of a string of decimal digits.
pub open spec fn digits_val(s: Seq<char>) -> nat
    decreases s.len(),
{
    if s.len() == 0 {
        0
    } else {
        digits_val(s.drop_last()) * 10 + ((s.last() as u32) - 48) as nat
    }
}

/// What `str::parse` gives, after `str::trim`, for an unsigned integer type
/// whose largest value is `max`: an optional `+`, then one or more decimal
/// digits whose value does not exceed `max`.
pub open spec fn parse_uint(s: Seq<char>, max: nat) -> Option<nat> {
    let t = trim(s);
    let d = if t.len() > 0 && t[0] == '+' {
        t.drop_first()
    } else {
        t
    };
    if d.len() > 0 && all_digits(d) && digits_val(d) <= max {
        Some(digits_val(d))
    } else {
        None
    }
}

proof fn lemma_digits_prefix_le(d: Seq<char>, k: int)
    requires
        0 <= k <= d.len(),
        all_digits(d),
    ensures
        digits_val(d.take(k)) <= digits_val(d),
    decreases d.len() - k,
{
    if k < d.len() {
        lemma_digits_prefix_le(d, k + 1);
        assert(d.take(k + 1).drop_last() =~= d.take(k));
        assert(is_digit(d[k]));
    } else {
        assert(d.take(k) =~= d);
    }
}

/// `parse_uint` of `cs[lo..hi]`.
pub fn parse_uint_at(cs: &Vec<char>, lo: usize, hi: usize, max: u64) -> (r: Option<u64>)
    requires
        lo <= hi <= cs.len(),
    ensures
        r is Some <==> parse_uint(cs@.subrange(lo as int, hi as int), max as nat) is Some,
        r is Some ==> r->0 == parse_uint(cs@.subrange(lo as int, hi as int), max as nat)->0,
{
    let (a0, b) = trim_range(cs, lo, hi);
    let ghost t = cs@.subrange(a0 as int, b as int);
    let mut a = a0;
    if a < b && cs[a] == '+' {
        a = a + 1;
    }
    let ghost d = cs@.subrange(a as int, b as int);
    assert(d =~= (if t.len() > 0 && t[0] == '+' { t.drop_first() } else { t }));
    if a == b {
        return None;
    }
    let mut acc: u128 = 0;
    let mut i = a;
    while i < b
        invariant
            a <= i <= b <= cs.len(),
            d == cs@.subrange(a as int, b as int),
            t == trim(cs@.subrange(lo as int, hi as int)),
            d == (if t.len() > 0 && t[0] == '+' { t.drop_first() } else { t }),
            acc <= max,
            acc == digits_val(d.take(i - a)),
            all_digits(d.take(i - a)),
        decreases b - i,
    {
        let c = cs[i];
        let v = c as u32;
        assert(d.take(i - a + 1).drop_last() =~= d.take(i - a));
        assert(d.take(i - a + 1).last() == c);
        if v < 48 || v > 57 {
            assert(!is_digit(d[i - a]));
            return None;
        }
        acc = acc * 10 + (v - 48) as u128;
        if acc > max as u128 {
            proof {
                if all_digits(d) {
                    lemma_digits_prefix_le(d, i - a + 1);
                }
            }
            return None;
        }
        i = i + 1;
    }
    assert(d.take(i - a) =~= d);
    Some(acc as u64)
}

/// The separators that `<attribute-list>` parsing skips between entries.
pub open spec fn is_attr_sep(c: char) -> bool {
    c == ',' || c == ' ' || c == '\t' || c == '\n' || c == '\x0C' || c == '\r'
}

/// The `NAME=VALUE` entries of an HLS `<attribute-list>`, in order: a value
/// in double quotes runs to the closing quote (which may be missing) and is
/// given without the quotes; any other value runs to the next comma.
pub open spec fn attr_items(s: Seq<char>) -> Seq<(Seq<char>, Seq<char>)>
    decreases s.len(),
{
    if s.len() == 0 {
        Seq::empty()
    } else if is_attr_sep(s[0]) {
        attr_items(s.drop_first())
    } else {
        let e = find(s, '=');
        if e >= s.len() {
            Seq::empty()
        } else {
            let key = s.take(e as int);
            let r = s.skip(e + 1int);
            if r.len() > 0 && r[0] == '"' {
                let body = r.drop_first();
                let q = find(body, '"');
                proof {
                    lemma_find_bound(body, '"');
                }
                let rest = if q < body.len() {
                    body.skip(q + 1int)
                } else {
                    body.skip(q as int)
                };
                seq![(key, body.take(q as int))] + attr_items(rest)
            } else {
                let c = find(r, ',');
                proof {
                    lemma_find_bound(r, ',');
                }
                seq![(key, r.take(c as int))] + attr_items(r.skip(c as int))
            }
        }
    }
}

/// The value of the last entry named `key`, as a map keyed by name keeps it.
pub open spec fn attr_get(items: Seq<(Seq<char>, Seq<char>)>, key: Seq<char>) -> Option<Seq<char>>
    decreases items.len(),
{
    if items.len() == 0 {
        None
    } else if items.last().0 == key {
        Some(items.last().1)
    } else {
        attr_get(items.drop_last(), key)
    }
}

/// Ranges of `cs` all within `[lo, hi]`.
pub open spec fn ranges_ok(items: Seq<(usize, usize, usize, usize)>, lo: int, hi: int) -> bool {
    forall|k: int|
        0 <= k < items.len() ==> lo <= (#[trigger] items[k]).0 <= items[k].1 <= hi && lo
            <= items[k].2 <= items[k].3 <= hi
}

/// The entries that index ranges of `cs` stand for.
pub open spec fn ranges_view(cs: Seq<char>, items: Seq<(usize, usize, usize, usize)>) -> Seq<
    (Seq<char>, Seq<char>),
> {
    Seq::new(
        items.len(),
        |k: int|
            (
                cs.subrange(items[k].0 as int, items[k].1 as int),
                cs.subrange(items[k].2 as int, items[k].3 as int),
            ),
    )
}

/// The entries of the attribute list `cs[lo..hi]`, as ranges of `cs`.
pub fn attr_ranges(cs: &Vec<char>, lo: usize, hi: usize) -> (items: Vec<(usize, usize, usize, usize)>)
    requires
        lo <= hi <= cs.len(),
    ensures
        ranges_ok(items@, lo as int, hi as int),
        ranges_view(cs@, items@) == attr_items(cs@.subrange(lo as int, hi as int)),
{
    let mut items: Vec<(usize, usize, usize, usize)> = Vec::new();
    let mut i = lo;
    while i < hi
        invariant
            lo <= i <= hi <= cs.len(),
            ranges_ok(items@, lo as int, hi as int),
            ranges_view(cs@, items@) + attr_items(cs@.subrange(i as int, hi as int))
                == attr_items(cs@.subrange(lo as int, hi as int)),
        decreases hi - i,
    {
        let ghost s = cs@.subrange(i as int, hi as int);
        if cs[i] == ',' || cs[i] == ' ' || cs[i] == '\t' || cs[i] == '\n' || cs[i] == '\x0C'
            || cs[i] == '\r' {
            assert(s.drop_first() =~= cs@.subrange(i + 1, hi as int));
            i = i + 1;
        } else {
            let e = find_from(cs, i, hi, '=');
            if e == hi {
                assert(attr_items(s) =~= Seq::empty());
                assert(ranges_view(cs@, items@) + attr_items(s) =~= ranges_view(cs@, items@));
                return items;
            }
            let ghost r = s.skip(e - i + 1);
            assert(r =~= cs@.subrange(e + 1, hi as int));
            assert(s.take(e - i) =~= cs@.subrange(i as int, e as int));
            let ghost old_view = ranges_view(cs@, items@);
            if e + 1 < hi && cs[e + 1] == '"' {
                let q = find_from(cs, e + 2, hi, '"');
                assert(r.drop_first() =~= cs@.subrange(e + 2, hi as int));
                assert(r.drop_first().take(q - (e + 2)) =~= cs@.subrange(e + 2, q as int));
                let next = if q < hi {
                    q + 1
                } else {
                    q
                };
                assert(r.drop_first().skip(next - (e + 2)) =~= cs@.subrange(next as int, hi as int));
                items.push((i, e, e + 2, q));
                assert(ranges_view(cs@, items@) =~= old_view.push(
                    (cs@.subrange(i as int, e as int), cs@.subrange(e + 2, q as int)),
                ));
                i = next;
            } else {
                let c = find_from(cs, e + 1, hi, ',');
                assert(r.take(c - (e + 1)) =~= cs@.subrange(e + 1, c as int));
                assert(r.skip(c - (e + 1)) =~= cs@.subrange(c as int, hi as int));
                items.push((i, e, e + 1, c));
                assert(ranges_view(cs@, items@) =~= old_view.push(
                    (cs@.subrange(i as int, e as int), cs@.subrange(e + 1, c as int)),
                ));
                i = c;
            }
        }
    }
    assert(cs@.subrange(i as int, hi as int) =~= Seq::<char>::empty());
    assert(ranges_view(cs@, items@) + Seq::<(Seq<char>, Seq<char>)>::empty() =~= ranges_view(
        cs@,
        items@,
    ));
    items
}

/// The value range of the last entry named `key`.
pub fn find_attr(cs: &Vec<char>, items: &Vec<(usize, usize, usize, usize)>, key: &str) -> (r:
    Option<(usize, usize)>)
    requires
        ranges_ok(items@, 0, cs@.len() as int),
    ensures
        r is Some <==> attr_get(ranges_view(cs@, items@), key@) is Some,
        r matches Some(p) ==> p.0 <= p.1 <= cs.len() && cs@.subrange(p.0 as int, p.1 as int)
            == attr_get(ranges_view(cs@, items@), key@)->0,
{
    let ghost all = ranges_view(cs@, items@);
    let mut k = items.len();
    assert(all.take(k as int) =~= all);
    while k > 0
        invariant
            k <= items.len(),
            all == ranges_view(cs@, items@),
            ranges_ok(items@, 0, cs@.len() as int),
            attr_get(all, key@) == attr_get(all.take(k as int), key@),
        decreases k,
    {
        let it = items[k - 1];
        assert(all.take(k as int).last() == all[k - 1]);
        assert(all.take(k as int).drop_last() =~= all.take(k - 1));
        if equals_at(cs, it.0, it.1, key) {
            return Some((it.2, it.3));
        }
        k = k - 1;
    }
    None
}

/// `c` does not occur in `s`.
pub open spec fn lacks(s: Seq<char>, c: char) -> bool {
    forall|k: int| 0 <= k < s.len() ==> s[k] != c
}

pub proof fn lemma_lacks_add(a: Seq<char>, b: Seq<char>, c: char)
    requires
        lacks(a, c),
        lacks(b, c),
    ensures
        lacks(a + b, c),
{
    assert forall|k: int| 0 <= k < (a + b).len() implies (a + b)[k] != c by {
        if k >= a.len() {
            assert((a + b)[k] == b[k - a.len()]);
        }
    }
}

pub proof fn lemma_digits_lack(d: Seq<char>)
    requires
        all_digits(d),
    ensures
        lacks(d, ','),
        lacks(d, '='),
        lacks(d, '"'),
        lacks(d, '\n'),
        lacks(d, 'x'),
        lacks(d, '@'),
        forall|k: int| 0 <= k < d.len() ==> !is_ws(#[trigger] d[k]),
{
    assert forall|k: int| 0 <= k < d.len() implies !is_ws(#[trigger] d[k]) && d[k] != ','
        && d[k] != '=' && d[k] != '"' && d[k] != '\n' && d[k] != 'x' && d[k] != '@' by {
        assert(is_digit(d[k]));
    }
}

/// A decimal numeral is a non-empty string of digits with its value.
pub proof fn lemma_dec_digits(n: nat)
    ensures
        dec(n).len() > 0,
        all_digits(dec(n)),
        digits_val(dec(n)) == n,
    decreases n,
{
    if n < 10 {
        assert(dec(n) =~= seq![digit(n as int)]);
        assert(dec(n).drop_last() =~= Seq::<char>::empty());
        assert((digit(n as int) as u32) == 48 + n);
        assert(digits_val(dec(n)) == digits_val(Seq::<char>::empty()) * 10 + n);
    } else {
        lemma_dec_digits(n / 10);
        let d = dec(n);
        assert(d.drop_last() =~= dec(n / 10));
        assert((digit((n % 10) as int) as u32) == 48 + n % 10);
        assert(d.last() == digit((n % 10) as int));
        assert(n == (n / 10) * 10 + n % 10) by (nonlinear_arith);
        assert(digits_val(d) == digits_val(dec(n / 10)) * 10 + n % 10);
        assert forall|k: int| 0 <= k < d.len() implies is_digit(#[trigger] d[k]) by {
            if k < dec(n / 10).len() {
                assert(d[k] == dec(n / 10)[k]);
            }
        }
    }
}

/// A string that neither starts nor ends with whitespace trims to itself.
pub proof fn lemma_trim_id(s: Seq<char>)
    requires
        s.len() > 0,
        !is_ws(s[0]),
        !is_ws(s.last()),
    ensures
        trim(s) == s,
{
}

/// `str::parse` reads a decimal numeral back as its value.
pub proof fn lemma_parse_dec(n: nat, max: nat)
    requires
        n <= max,
    ensures
        parse_uint(dec(n), max) == Some(n),
{
    lemma_dec_digits(n);
    lemma_digits_lack(dec(n));
    lemma_trim_id(dec(n));
}

pub proof fn lemma_attr_comma(rest: Seq<char>)
    ensures
        attr_items(seq![','] + rest) == attr_items(rest),
{
    assert((seq![','] + rest).drop_first() =~= rest);
}

/// An unquoted entry followed by the end or a comma.
pub proof fn lemma_attr_unquoted(key: Seq<char>, val: Seq<char>, rest: Seq<char>)
    requires
        key.len() > 0,
        !is_attr_sep(key[0]),
        lacks(key, '='),
        lacks(val, ','),
        val.len() == 0 || val[0] != '"',
        rest.len() == 0 || rest[0] == ',',
    ensures
        attr_items(key + seq!['='] + val + rest) == seq![(key, val)] + attr_items(rest),
{
    let s = key + seq!['='] + val + rest;
    lemma_find_at(s, '=', key.len() as int);
    assert(s.take(key.len() as int) =~= key);
    let r = s.skip(key.len() + 1int);
    assert(r =~= val + rest);
    assert forall|k: int| 0 <= k < val.len() implies r[k] != ',' by {
        assert(r[k] == val[k]);
    }
    lemma_find_at(r, ',', val.len() as int);
    assert(r.take(val.len() as int) =~= val);
    assert(r.skip(val.len() as int) =~= rest);
}

/// A quoted entry, whatever follows it.
pub proof fn lemma_attr_quoted(key: Seq<char>, val: Seq<char>, rest: Seq<char>)
    requires
        key.len() > 0,
        !is_attr_sep(key[0]),
        lacks(key, '='),
        lacks(val, '"'),
    ensures
        attr_items(key + seq!['=', '"'] + val + seq!['"'] + rest) == seq![(key, val)] + attr_items(
            rest,
        ),
{
    let s = key + seq!['=', '"'] + val + seq!['"'] + rest;
    lemma_find_at(s, '=', key.len() as int);
    assert(s.take(key.len() as int) =~= key);
    let r = s.skip(key.len() + 1int);
    assert(r =~= seq!['"'] + val + seq!['"'] + rest);
    let body = r.drop_first();
    assert(body =~= val + seq!['"'] + rest);
    lemma_find_at(body, '"', val.len() as int);
    assert(body.take(val.len() as int) =~= val);
    assert(body.skip(val.len() + 1int) =~= rest);
}

/// Entries after the last one named `key` do not change what it is read as.
pub proof fn lemma_attr_get_tail(
    xs: Seq<(Seq<char>, Seq<char>)>,
    ys: Seq<(Seq<char>, Seq<char>)>,
    key: Seq<char>,
)
    requires
        forall|k: int| 0 <= k < ys.len() ==> (#[trigger] ys[k]).0 != key,
    ensures
        attr_get(xs + ys, key) == attr_get(xs, key),
    decreases ys.len(),
{
    if ys.len() > 0 {
        assert((xs + ys).drop_last() =~= xs + ys.drop_last());
        assert((xs + ys).last() == ys[ys.len() - 1]);
        lemma_attr_get_tail(xs, ys.drop_last(), key);
    } else {
        assert(xs + ys =~= xs);
    }
}

} // verus!
