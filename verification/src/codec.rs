use vstd::prelude::*;
use vstd::arithmetic::div_mod::{
    lemma_fundamental_div_mod, lemma_fundamental_div_mod_converse, lemma_div_is_ordered,
};
use crate::elo::{pow10, RATING_LIMIT};
use crate::store::{Record, Store};

verus! {

// The persisted table is plain text: a header line, then one line per
// record with the identifier, the rating and the play count separated by
// commas.  The rating is written as a decimal number with up to three
// fractional digits; on reading, fractional digits beyond the third are
// accepted and truncated.  Identifiers holding a comma or a line break
// cannot be written; the encoder refuses them.

pub open spec fn is_digit(c: char) -> bool {
    c == '0' || c == '1' || c == '2' || c == '3' || c == '4' || c == '5' || c == '6' || c == '7'
        || c == '8' || c == '9'
}

pub open spec fn digit_val(c: char) -> nat {
    if c == '0' { 0 }
    else if c == '1' { 1 }
    else if c == '2' { 2 }
    else if c == '3' { 3 }
    else if c == '4' { 4 }
    else if c == '5' { 5 }
    else if c == '6' { 6 }
    else if c == '7' { 7 }
    else if c == '8' { 8 }
    else { 9 }
}

pub open spec fn digit_char(d: nat) -> char {
    if d == 0 { '0' }
    else if d == 1 { '1' }
    else if d == 2 { '2' }
    else if d == 3 { '3' }
    else if d == 4 { '4' }
    else if d == 5 { '5' }
    else if d == 6 { '6' }
    else if d == 7 { '7' }
    else if d == 8 { '8' }
    else { '9' }
}

/// The decimal digits of `n`, most significant first.
pub open spec fn digits_of(n: nat) -> Seq<char>
    decreases n,
{
    if n < 10 {
        seq![digit_char(n)]
    } else {
        digits_of(n / 10).push(digit_char(n % 10))
    }
}

pub open spec fn all_digits(s: Seq<char>) -> bool {
    forall|i: int| 0 <= i < s.len() ==> is_digit(#[trigger] s[i])
}

/// The number a digit string stands for.
pub open spec fn digits_val(s: Seq<char>) -> nat
    decreases s.len(),
{
    if s.len() == 0 {
        0
    } else {
        digits_val(s.drop_last()) * 10 + digit_val(s.last())
    }
}

/// Rendering a number and reading the digits back gives the number; the
/// rendering is all digits, and a bound on the number bounds its length.
pub proof fn lemma_digits_round_trip(n: nat)
    ensures
        all_digits(digits_of(n)),
        digits_val(digits_of(n)) == n,
        digits_of(n).len() >= 1,
        forall|k: nat| n < pow10(k) && k >= 1 ==> digits_of(n).len() <= k,
    decreases n,
{
    if n < 10 {
        let s = digits_of(n);
        assert(s =~= seq![digit_char(n)]);
        assert(s.drop_last() =~= Seq::<char>::empty());
        assert(digits_val(s.drop_last()) == 0);
        assert(s.last() == digit_char(n));
        assert(digits_val(s) == 0 * 10 + digit_val(digit_char(n)));
        assert forall|k: nat| n < pow10(k) && k >= 1 implies digits_of(n).len() <= k by {
        }
    } else {
        lemma_digits_round_trip(n / 10);
        let pre = digits_of(n / 10);
        let s = digits_of(n);
        assert(s == pre.push(digit_char(n % 10)));
        assert(s.drop_last() =~= pre);
        assert(s.last() == digit_char(n % 10));
        assert(digit_val(digit_char(n % 10)) == n % 10);
        lemma_fundamental_div_mod(n as int, 10);
        assert(digits_val(s) == (n / 10) * 10 + n % 10);
        assert forall|i: int| 0 <= i < s.len() implies is_digit(#[trigger] s[i]) by {
            if i < pre.len() {
                assert(is_digit(pre[i]));
            }
        }
        assert forall|k: nat| n < pow10(k) && k >= 1 implies digits_of(n).len() <= k by {
            assert(pow10(k) == 10 * pow10((k - 1) as nat));
            assert(n / 10 < pow10((k - 1) as nat)) by {
                if n / 10 >= pow10((k - 1) as nat) {
                    assert(n >= (n / 10) * 10) by {
                        lemma_fundamental_div_mod(n as int, 10);
                    };
                    assert((n / 10) * 10 >= pow10((k - 1) as nat) * 10) by (nonlinear_arith)
                        requires n / 10 >= pow10((k - 1) as nat),
                    ;
                }
            };
            assert(k - 1 >= 1) by {
                if k == 1 {
                    assert(pow10(0) == 1);
                }
            };
            assert(pre.len() <= k - 1);
        }
    }
}

/// A digit string's value is below ten to its length.
pub proof fn lemma_digits_val_bound(s: Seq<char>)
    ensures
        digits_val(s) < pow10(s.len()),
    decreases s.len(),
{
    if s.len() == 0 {
        assert(pow10(0) == 1);
    } else {
        lemma_digits_val_bound(s.drop_last());
        assert(pow10(s.len()) == 10 * pow10((s.len() - 1) as nat));
        assert(digits_val(s.drop_last()) * 10 + digit_val(s.last()) < pow10(s.len())) by (
        nonlinear_arith)
            requires
                digits_val(s.drop_last()) < pow10((s.len() - 1) as nat),
                digit_val(s.last()) < 10,
                pow10(s.len()) == 10 * pow10((s.len() - 1) as nat),
        ;
    }
}

/// The rating `m`, in thousandths, as decimal text: an optional minus sign,
/// the whole Elo points, and, when the thousandths are not zero, a point and
/// exactly three fractional digits.
pub open spec fn rating_chars(m: int) -> Seq<char> {
    if m < 0 {
        seq!['-'] + rating_mag_chars((-m) as nat)
    } else {
        rating_mag_chars(m as nat)
    }
}

pub open spec fn frac3_chars(f: nat) -> Seq<char> {
    seq![digit_char(f / 100), digit_char((f / 10) % 10), digit_char(f % 10)]
}

pub open spec fn rating_mag_chars(n: nat) -> Seq<char> {
    if n % 1000 == 0 {
        digits_of(n / 1000)
    } else {
        digits_of(n / 1000) + seq!['.'] + frac3_chars(n % 1000)
    }
}

/// One record as a line, without the terminating line break.
pub open spec fn row_chars(r: Record) -> Seq<char> {
    r.id@ + seq![','] + rating_chars(r.rating as int) + seq![','] + digits_of(r.games as nat)
}

/// All rows, each with its terminating line break.
pub open spec fn rows_chars(rs: Seq<Record>) -> Seq<char>
    decreases rs.len(),
{
    if rs.len() == 0 {
        Seq::empty()
    } else {
        rows_chars(rs.drop_last()) + row_chars(rs.last()) + seq!['\n']
    }
}

pub open spec fn header_chars() -> Seq<char> {
    seq!['P', 'a', 't', 'h', ',', 'R', 'a', 't', 'i', 'n', 'g', ',', 'G', 'a', 'm', 'e', 's', '\n']
}

/// The whole persisted file.
pub open spec fn file_chars(rs: Seq<Record>) -> Seq<char> {
    header_chars() + rows_chars(rs)
}

/// An identifier that the format can carry: no separator and no line break.
pub open spec fn id_clean(id: Seq<char>) -> bool {
    forall|i: int| 0 <= i < id.len() ==> (#[trigger] id[i]) != ',' && id[i] != '\n'
}

fn digit_to_char(d: u64) -> (c: char)
    requires
        d < 10,
    ensures
        c == digit_char(d as nat),
{
    if d == 0 { '0' }
    else if d == 1 { '1' }
    else if d == 2 { '2' }
    else if d == 3 { '3' }
    else if d == 4 { '4' }
    else if d == 5 { '5' }
    else if d == 6 { '6' }
    else if d == 7 { '7' }
    else if d == 8 { '8' }
    else { '9' }
}

fn char_to_digit(c: char) -> (r: Option<u64>)
    ensures
        (r is Some) == is_digit(c),
        r matches Some(d) ==> d < 10 && d as nat == digit_val(c),
{
    match c {
        '0' => Some(0),
        '1' => Some(1),
        '2' => Some(2),
        '3' => Some(3),
        '4' => Some(4),
        '5' => Some(5),
        '6' => Some(6),
        '7' => Some(7),
        '8' => Some(8),
        '9' => Some(9),
        _ => None,
    }
}

/// Appends the decimal digits of `n`.
fn push_digits(out: &mut Vec<char>, n: u64)
    ensures
        final(out)@ == old(out)@ + digits_of(n as nat),
    decreases n,
{
    if n < 10 {
        out.push(digit_to_char(n));
        proof {
            assert(final(out)@ =~= old(out)@ + digits_of(n as nat));
        }
    } else {
        push_digits(out, n / 10);
        out.push(digit_to_char(n % 10));
        proof {
            assert(final(out)@ =~= old(out)@ + digits_of(n as nat));
        }
    }
}

/// Appends the rating `m` as decimal text.
fn push_rating(out: &mut Vec<char>, m: i64)
    requires
        -RATING_LIMIT <= m <= RATING_LIMIT,
    ensures
        final(out)@ == old(out)@ + rating_chars(m as int),
{
    let mag: u64 = if m < 0 {
        (-(m as i128)) as u64
    } else {
        m as u64
    };
    if m < 0 {
        out.push('-');
    }
    let whole = mag / 1000;
    let frac = mag % 1000;
    push_digits(out, whole);
    if frac != 0 {
        out.push('.');
        out.push(digit_to_char(frac / 100));
        out.push(digit_to_char((frac / 10) % 10));
        out.push(digit_to_char(frac % 10));
    }
    proof {
        assert(final(out)@ =~= old(out)@ + rating_chars(m as int));
    }
}

/// Relies on String::from_iter over chars: the resulting string holds
/// exactly the given characters in order.
#[verifier::external_body]
fn string_from_chars(v: &Vec<char>) -> (s: String)
    ensures
        s@ == v@,
{
    v.iter().collect()
}

/// The characters of a string slice.
pub fn chars_of(s: &str) -> (v: Vec<char>)
    ensures
        v@ == s@,
{
    let n = s.unicode_len();
    let mut v: Vec<char> = Vec::new();
    let mut i: usize = 0;
    while i < n
        invariant
            n == s@.len(),
            i <= n,
            v@ == s@.take(i as int),
        decreases n - i,
    {
        let c = s.get_char(i);
        v.push(c);
        proof {
            assert(v@ =~= s@.take(i as int + 1));
        }
        i += 1;
    }
    proof {
        assert(s@.take(n as int) =~= s@);
    }
    v
}

/// Writes the whole table as the persisted text.  Fails with the offending
/// identifier when one cannot be carried by the format.
pub fn encode_store(store: &Store) -> (r: Result<String, String>)
    requires
        store.wf(),
    ensures
        (match r {
            Ok(s) => s@ == file_chars(store.rows()) && (forall|i: int|
                0 <= i < store.rows().len() ==> id_clean((#[trigger] store.rows()[i]).id@)),
            Err(id) => exists|i: int| 0 <= i < store.rows().len() && (#[trigger] store.rows()[
                i
            ]).id@ == id@ && !id_clean(store.rows()[i].id@),
        }),
{
    let mut out: Vec<char> = Vec::new();
    out.push('P');
    out.push('a');
    out.push('t');
    out.push('h');
    out.push(',');
    out.push('R');
    out.push('a');
    out.push('t');
    out.push('i');
    out.push('n');
    out.push('g');
    out.push(',');
    out.push('G');
    out.push('a');
    out.push('m');
    out.push('e');
    out.push('s');
    out.push('\n');
    proof {
        assert(out@ =~= header_chars() + rows_chars(store.rows().take(0)));
    }
    let n = store.len();
    let mut i: usize = 0;
    while i < n
        invariant
            store.wf(),
            n == store.rows().len(),
            i <= n,
            out@ == header_chars() + rows_chars(store.rows().take(i as int)),
            forall|j: int| 0 <= j < i ==> id_clean((#[trigger] store.rows()[j]).id@),
        decreases n - i,
    {
        let rec = store.row(i);
        let idc = chars_of(rec.id.as_str());
        let m = idc.len();
        let mut p: usize = 0;
        while p < m
            invariant
                store.wf(),
                n == store.rows().len(),
                i < n,
                m == idc@.len(),
                p <= m,
                idc@ == store.rows()[i as int].id@,
                rec.id@ == store.rows()[i as int].id@,
                forall|q: int| 0 <= q < p ==> (#[trigger] idc@[q]) != ',' && idc@[q] != '\n',
            decreases m - p,
        {
            let c = idc[p];
            if c == ',' || c == '\n' {
                proof {
                    assert(store.rows()[i as int].id@[p as int] == ',' || store.rows()[
                        i as int
                    ].id@[p as int] == '\n');
                    assert(!id_clean(store.rows()[i as int].id@));
                }
                return Err(rec.id.clone());
            }
            p += 1;
        }
        let mut q: usize = 0;
        while q < m
            invariant
                m == idc@.len(),
                q <= m,
                out@ == header_chars() + rows_chars(store.rows().take(i as int)) + idc@.take(
                    q as int,
                ),
            decreases m - q,
        {
            out.push(idc[q]);
            proof {
                assert(idc@.take(q as int + 1) =~= idc@.take(q as int).push(idc@[q as int]));
                assert(out@ =~= header_chars() + rows_chars(store.rows().take(i as int))
                    + idc@.take(q as int + 1));
            }
            q += 1;
        }
        proof {
            assert(idc@.take(m as int) =~= idc@);
        }
        out.push(',');
        push_rating(&mut out, rec.rating);
        out.push(',');
        push_digits(&mut out, rec.games);
        out.push('\n');
        proof {
            assert(store.rows().take(i as int + 1).drop_last() =~= store.rows().take(i as int));
            assert(store.rows().take(i as int + 1).last() == store.rows()[i as int]);
            assert(out@ =~= header_chars() + rows_chars(store.rows().take(i as int + 1)));
        }
        i += 1;
    }
    proof {
        assert(store.rows().take(n as int) =~= store.rows());
    }
    Ok(string_from_chars(&out))
}

/// Index of the first occurrence of `c`, or -1 when there is none.
pub open spec fn first_at(s: Seq<char>, c: char) -> int
    decreases s.len(),
{
    if s.len() == 0 {
        -1
    } else if s.first() == c {
        0
    } else {
        let r = first_at(s.drop_first(), c);
        if r < 0 {
            -1
        } else {
            r + 1
        }
    }
}

pub proof fn lemma_first_at_found(s: Seq<char>, c: char, k: int)
    requires
        0 <= k < s.len(),
        s[k] == c,
        forall|j: int| 0 <= j < k ==> s[j] != c,
    ensures
        first_at(s, c) == k,
    decreases s.len(),
{
    if k > 0 {
        assert(s.first() != c);
        assert(s.drop_first()[k - 1] == c);
        assert forall|j: int| 0 <= j < k - 1 implies s.drop_first()[j] != c by {
            assert(s[j + 1] != c);
        }
        lemma_first_at_found(s.drop_first(), c, k - 1);
    }
}

pub proof fn lemma_first_at_bound(s: Seq<char>, c: char)
    ensures
        first_at(s, c) < s.len(),
    decreases s.len(),
{
    if s.len() > 0 && s.first() != c {
        lemma_first_at_bound(s.drop_first(), c);
    }
}

pub proof fn lemma_first_at_none(s: Seq<char>, c: char)
    requires
        forall|j: int| 0 <= j < s.len() ==> s[j] != c,
    ensures
        first_at(s, c) == -1,
    decreases s.len(),
{
    if s.len() > 0 {
        assert forall|j: int| 0 <= j < s.drop_first().len() implies s.drop_first()[j] != c by {
            assert(s[j + 1] != c);
        }
        lemma_first_at_none(s.drop_first(), c);
    }
}

/// Finds the first `c` in `v` between `from` and `to`.
fn find_char(v: &Vec<char>, from: usize, to: usize, c: char) -> (r: Option<usize>)
    requires
        from <= to <= v@.len(),
    ensures
        (match r {
            Some(k) => from <= k < to && v@[k as int] == c && first_at(
                v@.subrange(from as int, to as int),
                c,
            ) == k - from,
            None => first_at(v@.subrange(from as int, to as int), c) == -1,
        }),
{
    let mut i: usize = from;
    while i < to
        invariant
            from <= i <= to <= v@.len(),
            forall|j: int| from <= j < i ==> v@[j] != c,
        decreases to - i,
    {
        if v[i] == c {
            proof {
                let sub = v@.subrange(from as int, to as int);
                assert(sub[i - from] == c);
                assert forall|j: int| 0 <= j < i - from implies sub[j] != c by {
                    assert(v@[from + j] != c);
                }
                lemma_first_at_found(sub, c, i - from);
            }
            return Some(i);
        }
        i += 1;
    }
    proof {
        let sub = v@.subrange(from as int, to as int);
        assert forall|j: int| 0 <= j < sub.len() implies sub[j] != c by {
            assert(v@[from + j] != c);
        }
        lemma_first_at_none(sub, c);
    }
    None
}

/// The number a field of at most `maxlen` digits stands for.
pub open spec fn digits_opt(s: Seq<char>, maxlen: int) -> Option<nat> {
    if 1 <= s.len() <= maxlen && all_digits(s) {
        Some(digits_val(s))
    } else {
        None
    }
}

proof fn lemma_pow10_pos(k: nat)
    ensures
        pow10(k) >= 1,
    decreases k,
{
    if k > 0 {
        lemma_pow10_pos((k - 1) as nat);
    }
}

proof fn lemma_pow10_mono(a: nat, b: nat)
    requires
        a <= b,
    ensures
        pow10(a) <= pow10(b),
        pow10(a) >= 1,
    decreases b,
{
    lemma_pow10_pos(a);
    if a < b {
        lemma_pow10_mono(a, (b - 1) as nat);
        assert(pow10(b) == 10 * pow10((b - 1) as nat));
    }
}

/// Reads a digit field of at most `maxlen` digits.
fn parse_digits_part(v: &Vec<char>, from: usize, to: usize, maxlen: usize) -> (r: Option<u128>)
    requires
        from <= to <= v@.len(),
        maxlen <= 20,
    ensures
        (match r {
            Some(val) => digits_opt(v@.subrange(from as int, to as int), maxlen as int)
                == Some(val as nat),
            None => digits_opt(v@.subrange(from as int, to as int), maxlen as int) is None,
        }),
{
    let len = to - from;
    if len == 0 || len > maxlen {
        return None;
    }
    let ghost sub = v@.subrange(from as int, to as int);
    let mut val: u128 = 0;
    let mut i: usize = from;
    while i < to
        invariant
            from <= i <= to <= v@.len(),
            to - from <= maxlen <= 20,
            sub == v@.subrange(from as int, to as int),
            all_digits(v@.subrange(from as int, i as int)),
            val as nat == digits_val(v@.subrange(from as int, i as int)),
            (val as nat) < pow10((i - from) as nat),
        decreases to - i,
    {
        let c = v[i];
        match char_to_digit(c) {
            Some(d) => {
                proof {
                    let pre = v@.subrange(from as int, i as int);
                    let cur = v@.subrange(from as int, i as int + 1);
                    assert(cur.drop_last() =~= pre);
                    assert(cur.last() == v@[i as int]);
                    lemma_pow10_mono((i - from + 1) as nat, 20);
                    reveal_with_fuel(pow10, 21);
                    assert(pow10(20) == 100_000_000_000_000_000_000) by {
                        assert(pow10(0) == 1);
                    };
                    assert((val as nat) * 10 + (d as nat) < pow10((i - from + 1) as nat)) by (
                    nonlinear_arith)
                        requires
                            (val as nat) < pow10((i - from) as nat),
                            d < 10,
                            pow10((i - from + 1) as nat) == 10 * pow10((i - from) as nat),
                    ;
                    assert(pow10((i - from + 1) as nat) == 10 * pow10((i - from) as nat));
                    assert forall|q: int| 0 <= q < cur.len() implies is_digit(
                        #[trigger] cur[q],
                    ) by {
                        if q < pre.len() {
                            assert(is_digit(pre[q]));
                        }
                    }
                }
                val = val * 10 + d as u128;
            },
            None => {
                proof {
                    assert(!is_digit(sub[i - from]));
                }
                return None;
            },
        }
        i += 1;
    }
    proof {
        assert(v@.subrange(from as int, to as int) =~= sub);
    }
    Some(val)
}

/// The scale that pads a short fractional field to thousandths.
pub open spec fn frac_scale(len: int) -> int {
    if len == 1 {
        100
    } else if len == 2 {
        10
    } else {
        1
    }
}

/// The rating a decimal field stands for, in thousandths: whole Elo points,
/// optionally a point and at least one fractional digit, optionally a
/// leading minus sign.  Fractional digits beyond the third are truncated;
/// out-of-range values are refused.
pub open spec fn rating_mag_opt(s: Seq<char>) -> Option<int> {
    let dot = first_at(s, '.');
    if dot < 0 {
        match digits_opt(s, 16) {
            Some(v) => if v * 1000 <= RATING_LIMIT as int {
                Some((v * 1000) as int)
            } else {
                None
            },
            None => None,
        }
    } else {
        let ip = s.take(dot);
        let fp = s.skip(dot + 1);
        if fp.len() >= 1 && all_digits(fp) {
            let keep: int = if fp.len() <= 3 {
                fp.len() as int
            } else {
                3
            };
            let vf = digits_val(fp.take(keep));
            match digits_opt(ip, 16) {
                Some(vi) => {
                    let m = (vi * 1000 + vf * frac_scale(keep)) as int;
                    if m <= RATING_LIMIT as int {
                        Some(m)
                    } else {
                        None
                    }
                },
                None => None,
            }
        } else {
            None
        }
    }
}

pub open spec fn rating_opt(s: Seq<char>) -> Option<int> {
    if s.len() >= 1 && s[0] == '-' {
        match rating_mag_opt(s.skip(1)) {
            Some(m) => Some(-m),
            None => None,
        }
    } else {
        rating_mag_opt(s)
    }
}

/// Reads a rating field.
#[verifier::rlimit(100)]
#[verifier::spinoff_prover]
fn parse_rating(v: &Vec<char>, from: usize, to: usize) -> (r: Option<i64>)
    requires
        from <= to <= v@.len(),
    ensures
        (match r {
            Some(m) => rating_opt(v@.subrange(from as int, to as int)) == Some(m as int)
                && -RATING_LIMIT <= m <= RATING_LIMIT,
            None => rating_opt(v@.subrange(from as int, to as int)) is None,
        }),
{
    let ghost whole = v@.subrange(from as int, to as int);
    let neg = from < to && v[from] == '-';
    let start = if neg {
        from + 1
    } else {
        from
    };
    proof {
        if neg {
            assert(whole.skip(1) =~= v@.subrange(start as int, to as int));
        }
    }
    let mag: u128;
    let dot = find_char(v, start, to, '.');
    let ghost body = v@.subrange(start as int, to as int);
    match dot {
        Some(k) => {
            proof {
                assert(body.take(first_at(body, '.')) =~= v@.subrange(start as int, k as int));
                assert(body.skip(first_at(body, '.') + 1) =~= v@.subrange(
                    k as int + 1,
                    to as int,
                ));
            }
            let flen = to - (k + 1);
            if flen == 0 {
                return None;
            }
            let ghost fp = v@.subrange(k as int + 1, to as int);
            let mut all_ok = true;
            let mut q: usize = k + 1;
            while q < to
                invariant
                    k + 1 <= q <= to <= v@.len(),
                    fp == v@.subrange(k as int + 1, to as int),
                    all_ok ==> (forall|j: int| k + 1 <= j < q ==> is_digit(#[trigger] v@[j])),
                    !all_ok ==> !all_digits(fp),
                decreases to - q,
            {
                let digit = char_to_digit(v[q]);
                if digit.is_none() {
                    proof {
                        assert(fp[q - (k + 1)] == v@[q as int]);
                        assert(!is_digit(fp[q - (k + 1)]));
                    }
                    all_ok = false;
                }
                q += 1;
            }
            if !all_ok {
                return None;
            }
            proof {
                assert forall|j: int| 0 <= j < fp.len() implies is_digit(#[trigger] fp[j]) by {
                    assert(is_digit(v@[k + 1 + j]));
                }
            }
            let vi = match parse_digits_part(v, start, k, 16) {
                Some(x) => x,
                None => {
                    return None;
                },
            };
            let keep: usize = if flen <= 3 {
                flen
            } else {
                3
            };
            proof {
                assert(fp.take(keep as int) =~= v@.subrange(k as int + 1, (k + 1 + keep) as int));
            }
            let vf = match parse_digits_part(v, k + 1, k + 1 + keep, 3) {
                Some(x) => x,
                None => {
                    proof {
                        assert(false);
                    }
                    return None;
                },
            };
            let scale: u128 = if keep == 1 {
                100
            } else if keep == 2 {
                10
            } else {
                1
            };
            proof {
                lemma_digits_val_bound(v@.subrange(start as int, k as int));
                lemma_pow10_mono(((k - start)) as nat, 16);
                reveal_with_fuel(pow10, 21);
                lemma_digits_val_bound(v@.subrange(k as int + 1, (k + 1 + keep) as int));
                lemma_pow10_mono(keep as nat, 3);
            }
            mag = vi * 1000 + vf * scale;
        },
        None => {
            let vi = match parse_digits_part(v, start, to, 16) {
                Some(x) => x,
                None => {
                    return None;
                },
            };
            proof {
                lemma_digits_val_bound(v@.subrange(start as int, to as int));
                lemma_pow10_mono((to - start) as nat, 16);
                reveal_with_fuel(pow10, 21);
            }
            mag = vi * 1000;
        },
    }
    if mag > RATING_LIMIT as u128 {
        return None;
    }
    let m: i64 = if neg {
        (-(mag as i128)) as i64
    } else {
        mag as i64
    };
    Some(m)
}

/// What one line stands for: identifier, rating and play count.
pub open spec fn row_opt(s: Seq<char>) -> Option<(Seq<char>, int, int)> {
    let c1 = first_at(s, ',');
    if c1 < 0 {
        None
    } else {
        let id = s.take(c1);
        let rest = s.skip(c1 + 1);
        let c2 = first_at(rest, ',');
        if c2 < 0 {
            None
        } else {
            let rtxt = rest.take(c2);
            let gtxt = rest.skip(c2 + 1);
            match (rating_opt(rtxt), digits_opt(gtxt, 20)) {
                (Some(m), Some(g)) => if g <= u64::MAX {
                    Some((id, m, g as int))
                } else {
                    None
                },
                _ => None,
            }
        }
    }
}

/// Reads one line into a record.
fn parse_row(v: &Vec<char>, from: usize, to: usize) -> (r: Option<Record>)
    requires
        from <= to <= v@.len(),
    ensures
        (match r {
            Some(rec) => row_opt(v@.subrange(from as int, to as int)) == Some(
                (rec.id@, rec.rating as int, rec.games as int),
            ) && rec.valid(),
            None => row_opt(v@.subrange(from as int, to as int)) is None,
        }),
{
    let ghost line = v@.subrange(from as int, to as int);
    let c1 = match find_char(v, from, to, ',') {
        Some(k) => k,
        None => {
            return None;
        },
    };
    proof {
        assert(line.take(first_at(line, ',')) =~= v@.subrange(from as int, c1 as int));
        assert(line.skip(first_at(line, ',') + 1) =~= v@.subrange(c1 as int + 1, to as int));
    }
    let ghost rest = v@.subrange(c1 as int + 1, to as int);
    let c2 = match find_char(v, c1 + 1, to, ',') {
        Some(k) => k,
        None => {
            return None;
        },
    };
    proof {
        assert(rest.take(first_at(rest, ',')) =~= v@.subrange(c1 as int + 1, c2 as int));
        assert(rest.skip(first_at(rest, ',') + 1) =~= v@.subrange(c2 as int + 1, to as int));
    }
    let m = match parse_rating(v, c1 + 1, c2) {
        Some(x) => x,
        None => {
            return None;
        },
    };
    let g128 = match parse_digits_part(v, c2 + 1, to, 20) {
        Some(x) => x,
        None => {
            return None;
        },
    };
    if g128 > u64::MAX as u128 {
        return None;
    }
    let g = g128 as u64;
    let mut idch: Vec<char> = Vec::new();
    let mut p: usize = from;
    while p < c1
        invariant
            from <= p <= c1 <= v@.len(),
            idch@ == v@.subrange(from as int, p as int),
        decreases c1 - p,
    {
        idch.push(v[p]);
        proof {
            assert(v@.subrange(from as int, p as int + 1) =~= v@.subrange(
                from as int,
                p as int,
            ).push(v@[p as int]));
        }
        p += 1;
    }
    let id = string_from_chars(&idch);
    Some(Record { id, rating: m, games: g })
}

/// The records a persisted file stands for, as plain values.
pub open spec fn rows_opt(s: Seq<char>) -> Option<Seq<(Seq<char>, int, int)>>
    decreases s.len(),
    via rows_opt_dec
{
    if s.len() == 0 {
        Some(Seq::empty())
    } else {
        let nl = first_at(s, '\n');
        if nl < 0 {
            None
        } else {
            match (row_opt(s.take(nl)), rows_opt(s.skip(nl + 1))) {
                (Some(r), Some(rest)) => Some(seq![r] + rest),
                _ => None,
            }
        }
    }
}

#[via_fn]
proof fn rows_opt_dec(s: Seq<char>) {
    if s.len() > 0 {
        lemma_first_at_bound(s, '\n');
    }
}

pub open spec fn file_opt(s: Seq<char>) -> Option<Seq<(Seq<char>, int, int)>> {
    if s.len() >= 18 && s.take(18) == header_chars() {
        rows_opt(s.skip(18))
    } else {
        None
    }
}

/// The rows of a table as plain values.
pub open spec fn views_of(rs: Seq<Record>) -> Seq<(Seq<char>, int, int)> {
    rs.map(|i: int, r: Record| (r.id@, r.rating as int, r.games as int))
}

/// Reads a whole persisted file back into records.
pub fn parse_store(s: &str) -> (r: Option<Vec<Record>>)
    ensures
        (match r {
            Some(recs) => file_opt(s@) == Some(views_of(recs@)) && (forall|i: int|
                0 <= i < recs@.len() ==> (#[trigger] recs@[i]).valid()),
            None => file_opt(s@) is None,
        }),
{
    let v = chars_of(s);
    let n = v.len();
    if n < 18 {
        return None;
    }
    let ok = v[0] == 'P' && v[1] == 'a' && v[2] == 't' && v[3] == 'h' && v[4] == ',' && v[5]
        == 'R' && v[6] == 'a' && v[7] == 't' && v[8] == 'i' && v[9] == 'n' && v[10] == 'g'
        && v[11] == ',' && v[12] == 'G' && v[13] == 'a' && v[14] == 'm' && v[15] == 'e' && v[16]
        == 's' && v[17] == '\n';
    if !ok {
        proof {
            assert(!(s@.take(18) =~= header_chars()));
            assert(s@.take(18) != header_chars());
        }
        return None;
    }
    proof {
        assert(s@.take(18) =~= header_chars());
    }
    let mut out: Vec<Record> = Vec::new();
    let mut pos: usize = 18;
    while pos < n
        invariant
            18 <= pos <= n == v@.len(),
            v@ == s@,
            forall|i: int| 0 <= i < out@.len() ==> (#[trigger] out@[i]).valid(),
            (match rows_opt(v@.skip(pos as int)) {
                Some(rest) => rows_opt(v@.skip(18)) == Some(views_of(out@) + rest),
                None => rows_opt(v@.skip(18)) is None,
            }),
        decreases n - pos,
    {
        let ghost suffix = v@.skip(pos as int);
        let nl = match find_char(&v, pos, n, '\n') {
            Some(k) => k,
            None => {
                proof {
                    assert(v@.subrange(pos as int, n as int) =~= suffix);
                }
                return None;
            },
        };
        proof {
            assert(v@.subrange(pos as int, n as int) =~= suffix);
            assert(suffix.take(first_at(suffix, '\n')) =~= v@.subrange(pos as int, nl as int));
            assert(suffix.skip(first_at(suffix, '\n') + 1) =~= v@.skip(nl as int + 1));
        }
        let rec = match parse_row(&v, pos, nl) {
            Some(x) => x,
            None => {
                return None;
            },
        };
        proof {
            let rv = (rec.id@, rec.rating as int, rec.games as int);
            assert(views_of(out@.push(rec)) =~= views_of(out@).push(rv));
            assert forall|rest: Seq<(Seq<char>, int, int)>|
                views_of(out@) + (seq![rv] + rest) =~= views_of(out@.push(rec)) + rest by {
            }
        }
        out.push(rec);
        pos = nl + 1;
    }
    proof {
        assert(v@.skip(pos as int) =~= Seq::<char>::empty());
        assert(rows_opt(v@.skip(pos as int)) == Some(Seq::<(Seq<char>, int, int)>::empty()));
        assert(views_of(out@) + Seq::<(Seq<char>, int, int)>::empty() =~= views_of(out@));
    }
    Some(out)
}

/// Reads one decimal value (a configuration number such as K or the cutoff)
/// into thousandths.
pub fn parse_decimal_milli(s: &str) -> (r: Option<i64>)
    ensures
        (match r {
            Some(m) => rating_opt(s@) == Some(m as int) && -RATING_LIMIT <= m <= RATING_LIMIT,
            None => rating_opt(s@) is None,
        }),
{
    let v = chars_of(s);
    let n = v.len();
    proof {
        assert(v@.subrange(0, n as int) =~= s@);
    }
    parse_rating(&v, 0, n)
}

proof fn lemma_first_at_concat(a: Seq<char>, b: Seq<char>, c: char)
    requires
        forall|i: int| 0 <= i < a.len() ==> (#[trigger] a[i]) != c,
    ensures
        first_at(a + seq![c] + b, c) == a.len(),
    decreases a.len(),
{
    let s = a + seq![c] + b;
    if a.len() == 0 {
        assert(s.first() == c);
    } else {
        assert(s.first() == a[0]);
        assert(s.drop_first() =~= a.drop_first() + seq![c] + b);
        assert forall|i: int| 0 <= i < a.drop_first().len() implies (#[trigger] a.drop_first()[
            i
        ]) != c by {
            assert(a[i + 1] != c);
        }
        lemma_first_at_concat(a.drop_first(), b, c);
    }
}

proof fn lemma_digits_clean(n: nat)
    ensures
        forall|i: int| 0 <= i < digits_of(n).len() ==> (#[trigger] digits_of(n)[i]) != ','
            && digits_of(n)[i] != '\n' && digits_of(n)[i] != '.' && digits_of(n)[i] != '-',
{
    lemma_digits_round_trip(n);
    assert forall|i: int| 0 <= i < digits_of(n).len() implies (#[trigger] digits_of(n)[i]) != ','
        && digits_of(n)[i] != '\n' && digits_of(n)[i] != '.' && digits_of(n)[i] != '-' by {
        assert(is_digit(digits_of(n)[i]));
    }
}

proof fn lemma_rating_chars_clean(m: int)
    ensures
        forall|i: int| 0 <= i < rating_chars(m).len() ==> (#[trigger] rating_chars(m)[i]) != ','
            && rating_chars(m)[i] != '\n',
{
    let mag: nat = if m < 0 { (-m) as nat } else { m as nat };
    lemma_digits_clean(mag / 1000);
    let s = rating_chars(m);
    assert forall|i: int| 0 <= i < s.len() implies (#[trigger] s[i]) != ',' && s[i] != '\n' by {
        let body = rating_mag_chars(mag);
        let j: int = if m < 0 { i - 1 } else { i };
        if m < 0 && i == 0 {
        } else {
            assert(s[i] == body[j]);
            let w = digits_of(mag / 1000);
            if mag % 1000 == 0 {
                assert(body[j] == w[j]);
            } else {
                if j < w.len() {
                    assert(body[j] == w[j]);
                } else if j == w.len() {
                    assert(body[j] == '.');
                } else {
                    assert(body[j] == frac3_chars(mag % 1000)[j - w.len() - 1]);
                }
            }
        }
    }
}

proof fn lemma_frac3_val(f: nat)
    requires
        f < 1000,
        f != 0,
    ensures
        all_digits(frac3_chars(f)),
        digits_val(frac3_chars(f)) == f,
{
    reveal_with_fuel(digits_val, 5);
    let s = frac3_chars(f);
    let a = f / 100;
    lemma_fundamental_div_mod(f as int, 100);
    let r = f % 100;
    lemma_fundamental_div_mod(r as int, 10);
    lemma_fundamental_div_mod_converse(f as int, 10, (10 * a + r / 10) as int, (r % 10) as int);
    assert(f / 10 == 10 * a + r / 10 && f % 10 == r % 10);
    lemma_fundamental_div_mod_converse((10 * a + r / 10) as int, 10, a as int, (r / 10) as int);
    assert((f / 10) % 10 == r / 10);
    assert(s.drop_last() =~= seq![digit_char(f / 100), digit_char((f / 10) % 10)]);
    assert(s.drop_last().drop_last() =~= seq![digit_char(f / 100)]);
    assert(s.drop_last().drop_last().drop_last() =~= Seq::<char>::empty());
    assert(digits_val(s) == (digit_val(digit_char(a)) * 10 + digit_val(
        digit_char((f / 10) % 10),
    )) * 10 + digit_val(digit_char(f % 10)));
    assert(digits_val(s) == f);
    assert forall|i: int| 0 <= i < s.len() implies is_digit(#[trigger] s[i]) by {
        assert(digit_val(s[i]) < 10);
    }
}

proof fn lemma_rating_mag_round_trip(n: nat)
    requires
        n <= RATING_LIMIT as nat,
    ensures
        rating_mag_opt(rating_mag_chars(n)) == Some(n as int),
{
    let w = n / 1000;
    let f = n % 1000;
    lemma_fundamental_div_mod(n as int, 1000);
    lemma_digits_round_trip(w);
    lemma_digits_clean(w);
    reveal_with_fuel(pow10, 21);
    assert(pow10(16) == 10_000_000_000_000_000) by {
        assert(pow10(0) == 1);
    };
    assert(w < pow10(16)) by {
        lemma_div_is_ordered(n as int, RATING_LIMIT as int, 1000);
    };
    assert(digits_of(w).len() <= 16);
    let s = rating_mag_chars(n);
    if f == 0 {
        lemma_first_at_none(s, '.');
        assert(digits_opt(s, 16) == Some(w));
    } else {
        let wd = digits_of(w);
        let fd = frac3_chars(f);
        assert(s =~= wd + seq!['.'] + fd);
        lemma_first_at_concat(wd, fd, '.');
        let dot = first_at(s, '.');
        assert(dot == wd.len());
        assert(s.take(dot) =~= wd);
        assert(s.skip(dot + 1) =~= fd);
        lemma_frac3_val(f);
        assert(fd.len() == 3 && fd.take(3) =~= fd);
        assert(frac_scale(3) == 1);
        assert(rating_mag_opt(s) == Some((w * 1000 + f) as int));
    }
}

proof fn lemma_rating_round_trip(m: int)
    requires
        -(RATING_LIMIT as int) <= m <= RATING_LIMIT as int,
    ensures
        rating_opt(rating_chars(m)) == Some(m),
{
    let s = rating_chars(m);
    if m < 0 {
        let mag = (-m) as nat;
        lemma_rating_mag_round_trip(mag);
        assert(s[0] == '-');
        assert(s.skip(1) =~= rating_mag_chars(mag));
    } else {
        lemma_rating_mag_round_trip(m as nat);
        assert(s == rating_mag_chars(m as nat));
        lemma_digits_round_trip(m as nat / 1000);
        assert(s[0] == digits_of(m as nat / 1000)[0]);
        assert(is_digit(s[0]));
        assert(s[0] != '-');
    }
}

proof fn lemma_row_round_trip(r: Record)
    requires
        r.valid(),
        id_clean(r.id@),
    ensures
        row_opt(row_chars(r)) == Some((r.id@, r.rating as int, r.games as int)),
{
    let s = row_chars(r);
    let rtxt = rating_chars(r.rating as int);
    let gtxt = digits_of(r.games as nat);
    let rest = rtxt + seq![','] + gtxt;
    assert(s =~= r.id@ + seq![','] + rest);
    lemma_first_at_concat(r.id@, rest, ',');
    let c1 = first_at(s, ',');
    assert(c1 == r.id@.len());
    assert(s.take(c1) =~= r.id@);
    assert(s.skip(c1 + 1) =~= rest);
    lemma_rating_chars_clean(r.rating as int);
    lemma_first_at_concat(rtxt, gtxt, ',');
    let c2 = first_at(rest, ',');
    assert(c2 == rtxt.len());
    assert(rest.take(c2) =~= rtxt);
    assert(rest.skip(c2 + 1) =~= gtxt);
    lemma_rating_round_trip(r.rating as int);
    lemma_digits_round_trip(r.games as nat);
    reveal_with_fuel(pow10, 21);
    assert(pow10(20) == 100_000_000_000_000_000_000) by {
        assert(pow10(0) == 1);
    };
    assert(gtxt.len() <= 20);
    assert(digits_opt(gtxt, 20) == Some(r.games as nat));
}

proof fn lemma_row_line_has_no_break(r: Record)
    requires
        id_clean(r.id@),
    ensures
        forall|i: int| 0 <= i < row_chars(r).len() ==> (#[trigger] row_chars(r)[i]) != '\n',
{
    let s = row_chars(r);
    let rtxt = rating_chars(r.rating as int);
    let gtxt = digits_of(r.games as nat);
    lemma_rating_chars_clean(r.rating as int);
    lemma_digits_clean(r.games as nat);
    assert forall|i: int| 0 <= i < s.len() implies (#[trigger] s[i]) != '\n' by {
        let a = r.id@.len() as int;
        let b = a + 1 + rtxt.len() as int;
        if i < a {
            assert(s[i] == r.id@[i]);
        } else if i == a {
            assert(s[i] == ',');
        } else if i < b {
            assert(s[i] == rtxt[i - a - 1]);
        } else if i == b {
            assert(s[i] == ',');
        } else {
            assert(s[i] == gtxt[i - b - 1]);
        }
    }
}

proof fn lemma_rows_front(rs: Seq<Record>)
    requires
        rs.len() > 0,
    ensures
        rows_chars(rs) =~= row_chars(rs.first()) + seq!['\n'] + rows_chars(rs.drop_first()),
    decreases rs.len(),
{
    if rs.len() == 1 {
        assert(rs.drop_last() =~= Seq::<Record>::empty());
        assert(rs.drop_first() =~= Seq::<Record>::empty());
        assert(rows_chars(rs) =~= row_chars(rs.first()) + seq!['\n'] + rows_chars(
            rs.drop_first(),
        ));
    } else {
        let pre = rs.drop_last();
        lemma_rows_front(pre);
        assert(pre.first() == rs.first());
        assert(pre.drop_first() =~= rs.drop_first().drop_last());
        assert(rs.drop_first().last() == rs.last());
        assert(rows_chars(rs.drop_first()) == rows_chars(rs.drop_first().drop_last())
            + row_chars(rs.last()) + seq!['\n']);
        assert(rows_chars(rs) =~= row_chars(rs.first()) + seq!['\n'] + rows_chars(
            rs.drop_first(),
        ));
    }
}

proof fn lemma_rows_round_trip(rs: Seq<Record>)
    requires
        forall|i: int| 0 <= i < rs.len() ==> (#[trigger] rs[i]).valid() && id_clean(rs[i].id@),
    ensures
        rows_opt(rows_chars(rs)) == Some(views_of(rs)),
    decreases rs.len(),
{
    if rs.len() == 0 {
        assert(rows_chars(rs) =~= Seq::<char>::empty());
        assert(views_of(rs) =~= Seq::<(Seq<char>, int, int)>::empty());
    } else {
        lemma_rows_front(rs);
        let line = row_chars(rs.first());
        let rest = rows_chars(rs.drop_first());
        let s = rows_chars(rs);
        assert(s =~= line + seq!['\n'] + rest);
        assert(rs[0].valid() && id_clean(rs[0].id@));
        lemma_row_line_has_no_break(rs.first());
        lemma_first_at_concat(line, rest, '\n');
        let nl = first_at(s, '\n');
        assert(nl == line.len());
        assert(s.len() > 0);
        assert(s.take(nl) =~= line);
        assert(s.skip(nl + 1) =~= rest);
        lemma_row_round_trip(rs.first());
        assert forall|i: int| 0 <= i < rs.drop_first().len() implies (#[trigger] rs.drop_first()[
            i
        ]).valid() && id_clean(rs.drop_first()[i].id@) by {
            assert(rs[i + 1].valid() && id_clean(rs[i + 1].id@));
        }
        lemma_rows_round_trip(rs.drop_first());
        let v0 = (rs.first().id@, rs.first().rating as int, rs.first().games as int);
        assert(views_of(rs) =~= seq![v0] + views_of(rs.drop_first()));
    }
}

/// Round trip of the persisted format: the text written for a table reads
/// back to exactly its rows, for every table whose ratings are representable
/// and whose identifiers the format can carry.
pub proof fn lemma_file_round_trip(rs: Seq<Record>)
    requires
        forall|i: int| 0 <= i < rs.len() ==> (#[trigger] rs[i]).valid() && id_clean(rs[i].id@),
    ensures
        file_opt(file_chars(rs)) == Some(views_of(rs)),
{
    let s = file_chars(rs);
    assert(s.take(18) =~= header_chars());
    assert(s.skip(18) =~= rows_chars(rs));
    lemma_rows_round_trip(rs);
}

/// The rating `m`, in thousandths, rendered as the decimal text the
/// persisted format uses.
pub fn rating_to_string(m: i64) -> (s: String)
    requires
        -RATING_LIMIT <= m <= RATING_LIMIT,
    ensures
        s@ == rating_chars(m as int),
{
    let mut out: Vec<char> = Vec::new();
    push_rating(&mut out, m);
    proof {
        assert(out@ =~= rating_chars(m as int));
    }
    string_from_chars(&out)
}

/// The first identifier in the table that the persisted format cannot carry,
/// if any: checked once at startup, so that a session does not run only to
/// lose its ratings at shutdown.
pub fn first_unwritable_id(store: &Store) -> (r: Option<String>)
    ensures
        (match r {
            Some(id) => exists|i: int| 0 <= i < store.rows().len() && (#[trigger] store.rows()[
                i
            ]).id@ == id@ && !id_clean(store.rows()[i].id@),
            None => forall|i: int| 0 <= i < store.rows().len() ==> id_clean(
                (#[trigger] store.rows()[i]).id@,
            ),
        }),
{
    let n = store.len();
    let mut i: usize = 0;
    while i < n
        invariant
            n == store.rows().len(),
            i <= n,
            forall|j: int| 0 <= j < i ==> id_clean((#[trigger] store.rows()[j]).id@),
        decreases n - i,
    {
        let rec = store.row(i);
        let idc = chars_of(rec.id.as_str());
        let m = idc.len();
        let mut p: usize = 0;
        let mut clean = true;
        while p < m
            invariant
                m == idc@.len(),
                p <= m,
                clean ==> (forall|q: int| 0 <= q < p ==> (#[trigger] idc@[q]) != ','
                    && idc@[q] != '\n'),
                !clean ==> !id_clean(idc@),
            decreases m - p,
        {
            let c = idc[p];
            if c == ',' || c == '\n' {
                clean = false;
            }
            p += 1;
        }
        if !clean {
            proof {
                assert(store.rows()[i as int].id@ == idc@);
            }
            return Some(rec.id.clone());
        }
        proof {
            assert(id_clean(store.rows()[i as int].id@));
        }
        i += 1;
    }
    None
}

} // verus!
