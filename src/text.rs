//! Reading decimal fields out of text and writing zero-padded decimal numbers.
use vstd::prelude::*;
use vstd::string::*;

verus! {

/// Whether `c` is an ASCII decimal digit.
pub open spec fn is_digit(c: char) -> bool {
    '0' <= c && c <= '9'
}

/// The value of the ASCII decimal digit `c`.
pub open spec fn digit_value(c: char) -> int {
    c as int - '0' as int
}

/// The value of a sequence of decimal digits (0 for the empty sequence).
pub open spec fn decimal(s: Seq<char>) -> int
    decreases s.len(),
{
    if s.len() == 0 {
        0
    } else {
        decimal(s.drop_last()) * 10 + digit_value(s.last())
    }
}

/// Whether `s` is a non-empty sequence of decimal digits.
pub open spec fn is_number(s: Seq<char>) -> bool {
    s.len() > 0 && forall|i: int| 0 <= i < s.len() ==> is_digit(#[trigger] s[i])
}

/// The pieces of `s` between the separators in `seps`, from left to right; `n` separators give
/// `n + 1` pieces, some of which may be empty.
pub open spec fn fields(s: Seq<char>, seps: Seq<char>) -> Seq<Seq<char>>
    decreases s.len(),
{
    if s.len() == 0 {
        seq![Seq::empty()]
    } else {
        let f = fields(s.drop_last(), seps);
        if seps.contains(s.last()) {
            f.push(Seq::empty())
        } else {
            f.update(f.len() - 1, f.last().push(s.last()))
        }
    }
}

/// `s` without any occurrence of `c`.
pub open spec fn without(s: Seq<char>, c: char) -> Seq<char>
    decreases s.len(),
{
    if s.len() == 0 {
        Seq::empty()
    } else if s.last() == c {
        without(s.drop_last(), c)
    } else {
        without(s.drop_last(), c).push(s.last())
    }
}

/// The characters of `s` without any occurrence of `c`.
pub fn chars_without(s: &str, c: char) -> (r: Vec<char>)
    ensures
        r@ == without(s@, c),
{
    let n = s.unicode_len();
    let mut r: Vec<char> = Vec::new();
    let mut i: usize = 0;
    while i < n
        invariant
            n == s@.len(),
            i <= n,
            r@ == without(s@.take(i as int), c),
        decreases n - i,
    {
        let x = s.get_char(i);
        assert(s@.take(i + 1).drop_last() =~= s@.take(i as int));
        if x != c {
            r.push(x);
        }
        i += 1;
    }
    assert(s@.take(n as int) =~= s@);
    r
}

/// Whether every piece of `s` between separators is a decimal number that fits in a `u64`.
pub open spec fn numeric_fields(s: Seq<char>, seps: Seq<char>) -> bool {
    forall|j: int|
        0 <= j < fields(s, seps).len() ==> is_number(#[trigger] fields(s, seps)[j]) && decimal(
            fields(s, seps)[j],
        ) <= u64::MAX
}

proof fn lemma_fields_nonempty(s: Seq<char>, seps: Seq<char>)
    ensures
        fields(s, seps).len() >= 1,
    decreases s.len(),
{
    if s.len() > 0 {
        lemma_fields_nonempty(s.drop_last(), seps);
    }
}

pub proof fn lemma_decimal_nonneg(s: Seq<char>)
    requires
        forall|i: int| 0 <= i < s.len() ==> is_digit(#[trigger] s[i]),
    ensures
        decimal(s) >= 0,
    decreases s.len(),
{
    if s.len() > 0 {
        lemma_decimal_nonneg(s.drop_last());
    }
}

pub proof fn lemma_decimal_grows(s: Seq<char>, c: char)
    requires
        forall|i: int| 0 <= i < s.len() ==> is_digit(#[trigger] s[i]),
        is_digit(c),
    ensures
        decimal(s.push(c)) >= decimal(s),
        decimal(s.push(c)) == decimal(s) * 10 + digit_value(c),
{
    lemma_decimal_nonneg(s);
    assert(s.push(c).drop_last() =~= s);
}

/// Copies the characters of `s` into a vector.
pub fn chars_of(s: &str) -> (r: Vec<char>)
    ensures
        r@ == s@,
{
    let n = s.unicode_len();
    let mut r: Vec<char> = Vec::new();
    let mut i: usize = 0;
    while i < n
        invariant
            n == s@.len(),
            i <= n,
            r@ == s@.take(i as int),
        decreases n - i,
    {
        r.push(s.get_char(i));
        i += 1;
        assert(r@ =~= s@.take(i as int));
    }
    assert(r@ =~= s@);
    r
}

fn contains_char(seps: &[char], c: char) -> (r: bool)
    ensures
        r == seps@.contains(c),
{
    let mut i: usize = 0;
    while i < seps.len()
        invariant
            i <= seps@.len(),
            forall|k: int| 0 <= k < i ==> seps@[k] != c,
        decreases seps@.len() - i,
    {
        if seps[i] == c {
            return true;
        }
        i += 1;
    }
    false
}

/// The values of the pieces of `s` between the separators `seps`, or `None` where a piece is
/// empty, holds a character other than a digit, or does not fit in a `u64`.
pub fn parse_fields(s: &Vec<char>, seps: &[char]) -> (r: Option<Vec<u64>>)
    ensures
        r is Some <==> numeric_fields(s@, seps@),
        r is Some ==> r->0@.len() == fields(s@, seps@).len() && forall|j: int|
            0 <= j < r->0@.len() ==> r->0@[j] == decimal(#[trigger] fields(s@, seps@)[j]),
{
    let mut vals: Vec<u64> = Vec::new();
    let mut cur: u64 = 0;
    let mut cur_len: usize = 0;
    let mut i: usize = 0;
    while i < s.len()
        invariant
            i <= s@.len(),
            ({
                let fs = fields(s@.take(i as int), seps@);
                &&& fs.len() == vals@.len() + 1
                &&& forall|j: int|
                    0 <= j < vals@.len() ==> is_number(#[trigger] fs[j]) && vals@[j] == decimal(
                        fs[j],
                    )
                &&& cur_len == fs.last().len()
                &&& cur_len <= i
                &&& forall|k: int| 0 <= k < fs.last().len() ==> is_digit(#[trigger] fs.last()[k])
                &&& cur == decimal(fs.last())
            }),
        decreases s@.len() - i,
    {
        let c = s[i];
        proof {
            lemma_fields_nonempty(s@.take(i as int), seps@);
            assert(s@.take(i as int + 1).drop_last() =~= s@.take(i as int));
        }
        let ghost fs_old = fields(s@.take(i as int), seps@);
        if contains_char(seps, c) {
            if cur_len == 0 {
                proof {
                    let fs_all = fields(s@, seps@);
                    lemma_prefix_fields(s@, seps@, i as int);
                    assert(!is_number(fs_all[fs_old.len() - 1]));
                }
                return None;
            }
            vals.push(cur);
            cur = 0;
            cur_len = 0;
        } else {
            if !('0' <= c && c <= '9') {
                proof {
                    lemma_prefix_fields_last(s@, seps@, i as int);
                    let whole = fields(s@, seps@)[fs_old.len() - 1];
                    let p = fs_old.last().push(c);
                    assert(whole[fs_old.last().len() as int] == p[fs_old.last().len() as int]);
                    assert(!is_number(whole));
                }
                return None;
            }
            let d: u64 = (c as u64) - ('0' as u64);
            proof {
                lemma_decimal_grows(fs_old.last(), c);
            }
            if cur > (u64::MAX - d) / 10 {
                proof {
                    lemma_prefix_fields_last(s@, seps@, i as int);
                    let whole = fields(s@, seps@)[fs_old.len() - 1];
                    let p = fs_old.last().push(c);
                    if is_number(whole) {
                        lemma_decimal_prefix(p, whole);
                    }
                }
                return None;
            }
            cur = cur * 10 + d;
            cur_len += 1;
        }
        i += 1;
        proof {
            let fs = fields(s@.take(i as int), seps@);
            if !seps@.contains(c) {
                assert(fs.last() =~= fs_old.last().push(c));
            }
        }
    }
    assert(s@.take(s@.len() as int) =~= s@);
    if cur_len == 0 {
        return None;
    }
    vals.push(cur);
    proof {
        let fs = fields(s@, seps@);
        assert forall|j: int| 0 <= j < fs.len() implies is_number(#[trigger] fs[j]) && decimal(
            fs[j],
        ) <= u64::MAX by {
            if j < fs.len() - 1 {
                assert(vals@[j] == decimal(fs[j]));
            }
        }
    }
    Some(vals)
}

proof fn lemma_decimal_prefix(p: Seq<char>, w: Seq<char>)
    requires
        p.is_prefix_of(w),
        forall|i: int| 0 <= i < w.len() ==> is_digit(#[trigger] w[i]),
    ensures
        decimal(p) <= decimal(w),
    decreases w.len(),
{
    if p.len() == w.len() {
        assert(p =~= w);
    } else {
        let v = w.drop_last();
        assert(w =~= v.push(w.last()));
        assert(is_digit(w[w.len() - 1]));
        lemma_decimal_grows(v, w.last());
        assert(p.is_prefix_of(v)) by {
            assert(p =~= v.subrange(0, p.len() as int));
        }
        lemma_decimal_prefix(p, v);
    }
}

/// How the pieces of a longer text extend those of a prefix.
proof fn lemma_prefix_fields(s: Seq<char>, seps: Seq<char>, i: int)
    requires
        0 <= i <= s.len(),
    ensures
        fields(s, seps).len() >= fields(s.take(i), seps).len(),
        forall|j: int|
            0 <= j < fields(s.take(i), seps).len() - 1 ==> #[trigger] fields(s, seps)[j] == fields(
                s.take(i),
                seps,
            )[j],
        fields(s.take(i), seps).last().is_prefix_of(
            fields(s, seps)[fields(s.take(i), seps).len() - 1],
        ),
        i < s.len() && seps.contains(s[i]) ==> fields(s, seps)[fields(s.take(i), seps).len() - 1]
            == fields(s.take(i), seps).last(),
    decreases s.len() - i,
{
    lemma_fields_nonempty(s.take(i), seps);
    if i == s.len() {
        assert(s.take(i) =~= s);
    } else {
        lemma_prefix_fields(s, seps, i + 1);
        lemma_fields_nonempty(s.take(i + 1), seps);
        assert(s.take(i + 1).drop_last() =~= s.take(i));
        let f = fields(s.take(i), seps);
        let g = fields(s.take(i + 1), seps);
        if seps.contains(s[i]) {
            assert(g[f.len() as int] =~= Seq::<char>::empty());
            lemma_prefix_monotone(s, seps, i + 1, f.len() as int);
        } else {
            assert(g.last() =~= f.last().push(s[i]));
            assert(f.last().is_prefix_of(g.last()));
        }
    }
}

proof fn lemma_prefix_monotone(s: Seq<char>, seps: Seq<char>, i: int, k: int)
    requires
        0 <= i <= s.len(),
        0 <= k < fields(s.take(i), seps).len(),
    ensures
        fields(s, seps).len() > k,
        k < fields(s.take(i), seps).len() - 1 ==> fields(s, seps)[k] == fields(s.take(i), seps)[k],
        fields(s.take(i), seps)[k].is_prefix_of(fields(s, seps)[k]),
    decreases s.len() - i,
{
    if i == s.len() {
        assert(s.take(i) =~= s);
    } else {
        lemma_fields_nonempty(s.take(i), seps);
        assert(s.take(i + 1).drop_last() =~= s.take(i));
        lemma_prefix_monotone(s, seps, i + 1, k);
        let f = fields(s.take(i), seps);
        let g = fields(s.take(i + 1), seps);
        if !seps.contains(s[i]) && k == f.len() - 1 {
            assert(g[k] =~= f[k].push(s[i]));
        }
    }
}

/// A piece whose characters so far are not all digits, or too large, stays so.
proof fn lemma_prefix_fields_last(s: Seq<char>, seps: Seq<char>, i: int)
    requires
        0 <= i < s.len(),
        !seps.contains(s[i]),
    ensures
        ({
            let f = fields(s.take(i), seps);
            let whole = fields(s, seps)[f.len() - 1];
            &&& f.last().push(s[i]).is_prefix_of(whole)
            &&& fields(s, seps).len() >= f.len()
        }),
{
    lemma_fields_nonempty(s.take(i), seps);
    lemma_fields_nonempty(s.take(i + 1), seps);
    let f = fields(s.take(i), seps);
    assert(s.take(i + 1).drop_last() =~= s.take(i));
    let g = fields(s.take(i + 1), seps);
    assert(g.last() =~= f.last().push(s[i]));
    lemma_prefix_monotone(s, seps, i + 1, f.len() - 1);
}

/// The ASCII digit for `d < 10`.
pub open spec fn digit_char(d: int) -> char {
    ('0' as int + d) as char
}

/// The decimal representation of `n`, without leading zeros.
pub open spec fn digits(n: nat) -> Seq<char>
    decreases n,
{
    if n < 10 {
        seq![digit_char(n as int)]
    } else {
        digits(n / 10).push(digit_char((n % 10) as int))
    }
}

/// `k` zero digits.
pub open spec fn zeros(k: int) -> Seq<char> {
    Seq::new(if k > 0 { k as nat } else { 0 }, |i: int| '0')
}

/// The decimal representation of `n`, padded on the left with zeros to at least `width` characters.
pub open spec fn padded(n: nat, width: nat) -> Seq<char> {
    zeros(width - digits(n).len()) + digits(n)
}

/// Appends the decimal digit `d` to `s`.
fn push_digit(s: &mut String, d: u64)
    requires
        d < 10,
    ensures
        final(s)@ == old(s)@.push(digit_char(d as int)),
{
    match d {
        0 => {
            proof { reveal_strlit("0"); }
            s.append("0");
        },
        1 => {
            proof { reveal_strlit("1"); }
            s.append("1");
        },
        2 => {
            proof { reveal_strlit("2"); }
            s.append("2");
        },
        3 => {
            proof { reveal_strlit("3"); }
            s.append("3");
        },
        4 => {
            proof { reveal_strlit("4"); }
            s.append("4");
        },
        5 => {
            proof { reveal_strlit("5"); }
            s.append("5");
        },
        6 => {
            proof { reveal_strlit("6"); }
            s.append("6");
        },
        7 => {
            proof { reveal_strlit("7"); }
            s.append("7");
        },
        8 => {
            proof { reveal_strlit("8"); }
            s.append("8");
        },
        _ => {
            proof { reveal_strlit("9"); }
            s.append("9");
        },
    }
    assert(final(s)@ =~= old(s)@.push(digit_char(d as int)));
}

/// Appends the decimal representation of `n`.
fn push_digits(s: &mut String, n: u64)
    ensures
        final(s)@ == old(s)@ + digits(n as nat),
    decreases n,
{
    if n < 10 {
        push_digit(s, n);
    } else {
        push_digits(s, n / 10);
        push_digit(s, n % 10);
        assert(final(s)@ =~= old(s)@ + digits(n as nat));
    }
}

/// The number of decimal digits of `n`.
fn count_digits(n: u64) -> (r: u64)
    ensures
        r == digits(n as nat).len(),
        r <= n + 1,
    decreases n,
{
    if n < 10 {
        1
    } else {
        count_digits(n / 10) + 1
    }
}

/// Appends the decimal representation of `n`, padded with zeros to `width` characters.
pub fn push_padded(s: &mut String, n: u64, width: usize)
    ensures
        final(s)@ == old(s)@ + padded(n as nat, width as nat),
{
    let len = count_digits(n);
    let ghost start = s@;
    let mut pad: u64 = len;
    while pad < width as u64
        invariant
            len <= pad,
            pad <= width || pad == len,
            s@ == start + zeros(pad - len),
        decreases width - pad,
    {
        push_digit(s, 0);
        pad += 1;
        assert(s@ =~= start + zeros(pad - len));
    }
    assert(zeros(pad - len) =~= zeros(width - len));
    push_digits(s, n);
    assert(s@ =~= start + padded(n as nat, width as nat));
}

} // verus!
