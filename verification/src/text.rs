//! Character-level helpers on strings: trimming, splitting, joining,
//! searching, and the decimal text of integers.

use vstd::prelude::*;

verus! {

// ---------------------------------------------------------------------------
// Specifications
// ---------------------------------------------------------------------------

/// Unicode `White_Space`, the property that `char::is_whitespace` tests.
pub open spec fn is_whitespace(c: char) -> bool {
    let u = c as u32;
    ||| 0x9 <= u <= 0xd
    ||| u == 0x20
    ||| u == 0x85
    ||| u == 0xa0
    ||| u == 0x1680
    ||| 0x2000 <= u <= 0x200a
    ||| u == 0x2028
    ||| u == 0x2029
    ||| u == 0x202f
    ||| u == 0x205f
    ||| u == 0x3000
}

/// `s` without its leading whitespace.
pub open spec fn trim_start(s: Seq<char>) -> Seq<char>
    decreases s.len(),
{
    if s.len() > 0 && is_whitespace(s[0]) {
        trim_start(s.drop_first())
    } else {
        s
    }
}

/// `s` without its trailing whitespace.
pub open spec fn trim_end(s: Seq<char>) -> Seq<char>
    decreases s.len(),
{
    if s.len() > 0 && is_whitespace(s.last()) {
        trim_end(s.drop_last())
    } else {
        s
    }
}

/// `str::trim`: `s` without leading and trailing whitespace.
pub open spec fn trim(s: Seq<char>) -> Seq<char> {
    trim_end(trim_start(s))
}

/// The first index at or after `i` at which `s` holds `c`.
pub open spec fn index_of_from(s: Seq<char>, c: char, i: int) -> Option<int>
    decreases s.len() - i,
{
    if i < 0 || i >= s.len() {
        None
    } else if s[i] == c {
        Some(i)
    } else {
        index_of_from(s, c, i + 1)
    }
}

/// The first index at which `s` holds `c`.
pub open spec fn index_of(s: Seq<char>, c: char) -> Option<int> {
    index_of_from(s, c, 0)
}

/// Whether `pat` occurs in `s` starting at index `i`.
pub open spec fn occurs_at(s: Seq<char>, pat: Seq<char>, i: int) -> bool {
    0 <= i && i + pat.len() <= s.len() && s.subrange(i, i + pat.len()) == pat
}

/// The first index at or after `i` at which `pat` occurs in `s`.
pub open spec fn find_from(s: Seq<char>, pat: Seq<char>, i: int) -> Option<int>
    decreases s.len() + 1 - i,
{
    if i < 0 || i + pat.len() > s.len() {
        None
    } else if occurs_at(s, pat, i) {
        Some(i)
    } else {
        find_from(s, pat, i + 1)
    }
}

/// The first index at which `pat` occurs in `s` (in characters).
pub open spec fn find(s: Seq<char>, pat: Seq<char>) -> Option<int> {
    find_from(s, pat, 0)
}

/// Whether `s` begins with `prefix`.
pub open spec fn starts_with(s: Seq<char>, prefix: Seq<char>) -> bool {
    prefix.len() <= s.len() && s.take(prefix.len() as int) == prefix
}

/// The pieces of `s` before the last separator, and the piece being built.
pub open spec fn split_state(s: Seq<char>, sep: char) -> (Seq<Seq<char>>, Seq<char>)
    decreases s.len(),
{
    if s.len() == 0 {
        (Seq::empty(), Seq::empty())
    } else {
        let (done, cur) = split_state(s.drop_last(), sep);
        if s.last() == sep {
            (done.push(cur), Seq::empty())
        } else {
            (done, cur.push(s.last()))
        }
    }
}

/// `str::split` by one character: the pieces between separators, empty ones included.
pub open spec fn split(s: Seq<char>, sep: char) -> Seq<Seq<char>> {
    let (done, cur) = split_state(s, sep);
    done.push(cur)
}

/// `parts` joined with `sep` between consecutive parts.
pub open spec fn join(parts: Seq<Seq<char>>, sep: Seq<char>) -> Seq<char>
    decreases parts.len(),
{
    if parts.len() == 0 {
        Seq::empty()
    } else if parts.len() == 1 {
        parts[0]
    } else {
        join(parts.drop_last(), sep) + sep + parts.last()
    }
}

/// The number of times `c` occurs in `s`.
pub open spec fn count_char(s: Seq<char>, c: char) -> nat
    decreases s.len(),
{
    if s.len() == 0 {
        0
    } else {
        count_char(s.drop_last(), c) + if s.last() == c {
            1nat
        } else {
            0nat
        }
    }
}

/// The views of a sequence of strings.
pub open spec fn views(v: Seq<String>) -> Seq<Seq<char>> {
    v.map_values(|s: String| s@)
}

/// The view of an optional string.
pub open spec fn opt_view(o: Option<String>) -> Option<Seq<char>> {
    match o {
        Some(s) => Some(s@),
        None => None,
    }
}

/// The decimal digit for `d < 10`.
pub open spec fn digit_char(d: nat) -> char {
    if d == 0 {
        '0'
    } else if d == 1 {
        '1'
    } else if d == 2 {
        '2'
    } else if d == 3 {
        '3'
    } else if d == 4 {
        '4'
    } else if d == 5 {
        '5'
    } else if d == 6 {
        '6'
    } else if d == 7 {
        '7'
    } else if d == 8 {
        '8'
    } else {
        '9'
    }
}

/// The decimal text of `n`, without leading zeros.
pub open spec fn decimal(n: nat) -> Seq<char>
    decreases n,
{
    if n < 10 {
        seq![digit_char(n)]
    } else {
        decimal(n / 10).push(digit_char(n % 10))
    }
}

/// `i64::to_string`: the decimal text of `n`, with a leading `-` when negative.
pub open spec fn int_text(n: int) -> Seq<char> {
    if n < 0 {
        seq!['-'] + decimal((-n) as nat)
    } else {
        decimal(n as nat)
    }
}

/// Whether `c` is an ASCII decimal digit.
pub open spec fn is_digit(c: char) -> bool {
    '0' <= c && c <= '9'
}

/// The value of the ASCII digit `c`.
pub open spec fn digit_value(c: char) -> int {
    (c as u32) - ('0' as u32)
}

/// The value of the decimal digits `s`.
pub open spec fn digits_value(s: Seq<char>) -> int
    decreases s.len(),
{
    if s.len() == 0 {
        0
    } else {
        digits_value(s.drop_last()) * 10 + digit_value(s.last())
    }
}

/// Whether every character of `s` is an ASCII digit.
pub open spec fn all_digits(s: Seq<char>) -> bool {
    forall|i: int| 0 <= i < s.len() ==> is_digit(#[trigger] s[i])
}

/// `str::parse::<i64>`: an optional sign, then one or more ASCII digits
/// whose value fits in an `i64`.
pub open spec fn parse_i64(s: Seq<char>) -> Option<i64> {
    let neg = s.len() > 0 && s[0] == '-';
    let signed = s.len() > 0 && (s[0] == '-' || s[0] == '+');
    let body = if signed {
        s.drop_first()
    } else {
        s
    };
    if body.len() == 0 || !all_digits(body) {
        None
    } else {
        let v = if neg {
            -digits_value(body)
        } else {
            digits_value(body)
        };
        if i64::MIN <= v <= i64::MAX {
            Some(v as i64)
        } else {
            None
        }
    }
}

// ---------------------------------------------------------------------------
// Lemmas
// ---------------------------------------------------------------------------

pub proof fn lemma_trim_start_len(s: Seq<char>)
    ensures
        trim_start(s).len() <= s.len(),
        trim_start(s).len() > 0 ==> !is_whitespace(trim_start(s)[0]),
    decreases s.len(),
{
    if s.len() > 0 && is_whitespace(s[0]) {
        lemma_trim_start_len(s.drop_first());
    }
}

pub proof fn lemma_trim_end_len(s: Seq<char>)
    ensures
        trim_end(s).len() <= s.len(),
        trim_end(s) == s.take(trim_end(s).len() as int),
        trim_end(s).len() > 0 ==> !is_whitespace(trim_end(s).last()),
    decreases s.len(),
{
    if s.len() > 0 && is_whitespace(s.last()) {
        lemma_trim_end_len(s.drop_last());
        assert(s.drop_last().take(trim_end(s).len() as int) =~= s.take(trim_end(s).len() as int));
    } else {
        assert(s.take(s.len() as int) =~= s);
    }
}

/// A string that starts and ends with non-whitespace is its own trim.
pub proof fn lemma_trim_unchanged(s: Seq<char>)
    requires
        s.len() > 0 ==> !is_whitespace(s[0]) && !is_whitespace(s.last()),
    ensures
        trim(s) == s,
{
}

/// Whatever `trim` leaves starts and ends with non-whitespace.
pub proof fn lemma_trim_bounds(s: Seq<char>)
    ensures
        trim(s).len() > 0 ==> !is_whitespace(trim(s)[0]) && !is_whitespace(trim(s).last()),
{
    lemma_trim_start_len(s);
    lemma_trim_end_len(trim_start(s));
}

/// A string equal to its own trim, if nonempty, starts and ends with non-whitespace.
pub proof fn lemma_trimmed_ends(s: Seq<char>)
    requires
        trim(s) == s,
    ensures
        s.len() > 0 ==> !is_whitespace(s[0]) && !is_whitespace(s.last()),
{
    lemma_trim_bounds(s);
}

pub proof fn lemma_index_of_from_in_range(s: Seq<char>, c: char, i: int)
    ensures
        index_of_from(s, c, i) matches Some(j) ==> i <= j < s.len() && s[j] == c && (forall|k: int|
            i <= k < j ==> s[k] != c),
        index_of_from(s, c, i) is None ==> (forall|k: int| i <= k < s.len() && 0 <= i ==> s[k] != c),
    decreases s.len() - i,
{
    if i < 0 || i >= s.len() {
    } else if s[i] == c {
    } else {
        lemma_index_of_from_in_range(s, c, i + 1);
    }
}

/// `index_of` is the first occurrence.
pub proof fn lemma_index_of(s: Seq<char>, c: char)
    ensures
        index_of(s, c) matches Some(j) ==> 0 <= j < s.len() && s[j] == c && (forall|k: int|
            0 <= k < j ==> s[k] != c),
        index_of(s, c) is None ==> !s.contains(c),
{
    lemma_index_of_from_in_range(s, c, 0);
}

/// The first occurrence of a character is found past a prefix that lacks it.
pub proof fn lemma_index_of_concat(a: Seq<char>, b: Seq<char>, c: char)
    requires
        !a.contains(c),
    ensures
        index_of(a + b, c) == (match index_of(b, c) {
            Some(j) => Some(a.len() + j),
            None => None,
        }),
{
    lemma_index_of(a + b, c);
    lemma_index_of(b, c);
    let s = a + b;
    match index_of(s, c) {
        Some(j) => {
            if j < a.len() {
                assert(a[j] == c);
                assert(a.contains(c));
            }
            assert(b[j - a.len()] == c);
            match index_of(b, c) {
                Some(jb) => {
                    assert(s[a.len() + jb] == c);
                    if jb < j - a.len() {
                    } else if jb > j - a.len() {
                        assert(b[j - a.len()] != c);
                    }
                },
                None => {
                    assert(b.contains(c));
                },
            }
        },
        None => {
            match index_of(b, c) {
                Some(jb) => {
                    assert(s[a.len() + jb] == c);
                    assert(s.contains(c));
                },
                None => {},
            }
        },
    }
}

pub proof fn lemma_find_from_in_range(s: Seq<char>, pat: Seq<char>, i: int)
    requires
        0 <= i,
    ensures
        find_from(s, pat, i) matches Some(j) ==> i <= j && occurs_at(s, pat, j) && (forall|k: int|
            i <= k < j ==> !occurs_at(s, pat, k)),
        find_from(s, pat, i) is None ==> (forall|k: int| i <= k ==> !occurs_at(s, pat, k)),
    decreases s.len() + 1 - i,
{
    if i + pat.len() > s.len() {
    } else if occurs_at(s, pat, i) {
    } else {
        lemma_find_from_in_range(s, pat, i + 1);
    }
}

/// The split of `s` followed by one more character.
pub proof fn lemma_split_state_push(s: Seq<char>, sep: char, c: char)
    ensures
        split_state(s.push(c), sep) == (if c == sep {
            (split_state(s, sep).0.push(split_state(s, sep).1), Seq::<char>::empty())
        } else {
            (split_state(s, sep).0, split_state(s, sep).1.push(c))
        }),
{
    assert(s.push(c).drop_last() =~= s);
}

pub proof fn lemma_join_push(parts: Seq<Seq<char>>, p: Seq<char>, sep: Seq<char>)
    ensures
        join(parts.push(p), sep) == if parts.len() == 0 {
            p
        } else {
            join(parts, sep) + sep + p
        },
{
    assert(parts.push(p).drop_last() =~= parts);
}

/// Whether `pat` occurs somewhere in `s`.
pub open spec fn occurs_in(s: Seq<char>, pat: Seq<char>) -> bool {
    exists|a: int| occurs_at(s, pat, a)
}

/// Every part occurs in the joined text.
pub proof fn lemma_join_contains_parts(parts: Seq<Seq<char>>, sep: Seq<char>)
    ensures
        forall|i: int| 0 <= i < parts.len() ==> occurs_in(join(parts, sep), #[trigger] parts[i]),
    decreases parts.len(),
{
    let j = join(parts, sep);
    if parts.len() == 1 {
        assert(j.subrange(0, parts[0].len() as int) =~= parts[0]);
        assert(occurs_at(j, parts[0], 0));
    } else if parts.len() > 1 {
        let dl = parts.drop_last();
        let jd = join(dl, sep);
        lemma_join_contains_parts(dl, sep);
        assert(j == jd + sep + parts.last());
        assert forall|i: int| 0 <= i < parts.len() implies occurs_in(j, #[trigger] parts[i]) by {
            if i < dl.len() {
                assert(dl[i] == parts[i]);
                assert(occurs_in(jd, dl[i]));
                let a = choose|a: int| occurs_at(jd, dl[i], a);
                assert(j.subrange(a, a + parts[i].len()) =~= jd.subrange(a, a + parts[i].len()));
                assert(occurs_at(j, parts[i], a));
            } else {
                let a: int = (jd.len() + sep.len()) as int;
                assert(j.subrange(a, a + parts[i].len()) =~= parts.last());
                assert(occurs_at(j, parts[i], a));
            }
        }
    }
}

pub proof fn lemma_count_char_push(s: Seq<char>, c: char, x: char)
    ensures
        count_char(s.push(x), c) == count_char(s, c) + if x == c {
            1nat
        } else {
            0nat
        },
{
    assert(s.push(x).drop_last() =~= s);
}

pub proof fn lemma_digits_value_push(s: Seq<char>, c: char)
    ensures
        digits_value(s.push(c)) == digits_value(s) * 10 + digit_value(c),
{
    assert(s.push(c).drop_last() =~= s);
}

pub proof fn lemma_digit_char(d: nat)
    requires
        d < 10,
    ensures
        is_digit(digit_char(d)),
        digit_value(digit_char(d)) == d,
{
}

/// The decimal text of `n` is all digits and has value `n`.
pub proof fn lemma_decimal(n: nat)
    ensures
        decimal(n).len() > 0,
        all_digits(decimal(n)),
        digits_value(decimal(n)) == n,
        decimal(n)[0] != '-' && decimal(n)[0] != '+',
    decreases n,
{
    if n < 10 {
        lemma_digit_char(n);
        assert(seq![digit_char(n)].drop_last() =~= Seq::<char>::empty());
        assert(seq![digit_char(n)].last() == digit_char(n));
        assert(digits_value(decimal(n)) == digits_value(Seq::<char>::empty()) * 10 + digit_value(
            digit_char(n),
        ));
    } else {
        assert(n == (n / 10) * 10 + n % 10);
        lemma_decimal(n / 10);
        lemma_digit_char(n % 10);
        lemma_digits_value_push(decimal(n / 10), digit_char(n % 10));
        let d = decimal(n / 10).push(digit_char(n % 10));
        assert forall|i: int| 0 <= i < d.len() implies is_digit(#[trigger] d[i]) by {
            if i < d.len() - 1 {
                assert(d[i] == decimal(n / 10)[i]);
            }
        }
        assert(d[0] == decimal(n / 10)[0]);
    }
}

pub proof fn lemma_digits_value_nonneg(s: Seq<char>)
    requires
        all_digits(s),
    ensures
        digits_value(s) >= 0,
    decreases s.len(),
{
    if s.len() > 0 {
        assert(is_digit(s.last()));
        assert(all_digits(s.drop_last())) by {
            assert forall|i: int| 0 <= i < s.drop_last().len() implies is_digit(
                #[trigger] s.drop_last()[i],
            ) by {
                assert(s.drop_last()[i] == s[i]);
            }
        }
        lemma_digits_value_nonneg(s.drop_last());
    }
}

/// The trimmed, nonempty pieces, in order.
pub open spec fn nonempty_trimmed(parts: Seq<Seq<char>>) -> Seq<Seq<char>>
    decreases parts.len(),
{
    if parts.len() == 0 {
        Seq::empty()
    } else if trim(parts.last()).len() > 0 {
        nonempty_trimmed(parts.drop_last()).push(trim(parts.last()))
    } else {
        nonempty_trimmed(parts.drop_last())
    }
}


/// Splitting text followed by a piece without the separator extends the
/// last piece.
pub proof fn lemma_split_state_append(s: Seq<char>, t: Seq<char>, sep: char)
    requires
        !t.contains(sep),
    ensures
        split_state(s + t, sep) == (split_state(s, sep).0, split_state(s, sep).1 + t),
    decreases t.len(),
{
    if t.len() == 0 {
        assert(s + t =~= s);
        assert(split_state(s, sep).1 + t =~= split_state(s, sep).1);
    } else {
        let t0 = t.drop_last();
        assert(!t0.contains(sep)) by {
            if t0.contains(sep) {
                let i = choose|i: int| 0 <= i < t0.len() && t0[i] == sep;
                assert(t[i] == sep);
            }
        }
        assert(t.last() != sep) by {
            assert(t[t.len() - 1] == t.last());
        }
        lemma_split_state_append(s, t0, sep);
        assert(s + t =~= (s + t0).push(t.last()));
        lemma_split_state_push(s + t0, sep, t.last());
        assert(split_state(s, sep).1 + t0 + seq![t.last()] =~= split_state(s, sep).1 + t);
        assert((split_state(s, sep).1 + t0).push(t.last()) =~= split_state(s, sep).1 + t);
    }
}

/// Splitting pieces joined by the separator gives the pieces back, when no
/// piece holds the separator.
pub proof fn lemma_split_join(xs: Seq<Seq<char>>, sep: char)
    requires
        xs.len() > 0,
        forall|i: int| 0 <= i < xs.len() ==> !(#[trigger] xs[i]).contains(sep),
    ensures
        split(join(xs, seq![sep]), sep) == xs,
    decreases xs.len(),
{
    if xs.len() == 1 {
        lemma_split_state_append(Seq::empty(), xs[0], sep);
        assert(Seq::<char>::empty() + xs[0] =~= xs[0]);
        assert(split_state(Seq::<char>::empty(), sep) == (
            Seq::<Seq<char>>::empty(),
            Seq::<char>::empty(),
        ));
        assert(Seq::<char>::empty() + xs[0] =~= xs[0]);
        assert(split(xs[0], sep) =~= xs);
    } else {
        let ys = xs.drop_last();
        let x = xs.last();
        assert forall|i: int| 0 <= i < ys.len() implies !(#[trigger] ys[i]).contains(sep) by {
            assert(ys[i] == xs[i]);
        }
        assert(!x.contains(sep)) by {
            assert(xs[xs.len() - 1] == x);
        }
        lemma_split_join(ys, sep);
        let j = join(ys, seq![sep]);
        assert(join(xs, seq![sep]) == j + seq![sep] + x);
        lemma_split_state_append(j + seq![sep], x, sep);
        assert(j + seq![sep] =~= j.push(sep));
        lemma_split_state_push(j, sep, sep);
        assert(Seq::<char>::empty() + x =~= x);
        assert(split(join(xs, seq![sep]), sep) =~= split(j, sep).push(x));
        assert(ys.push(x) =~= xs);
    }
}

/// Trimmed nonempty pieces are kept as they are.
pub proof fn lemma_nonempty_trimmed_id(xs: Seq<Seq<char>>)
    requires
        forall|i: int| 0 <= i < xs.len() ==> (#[trigger] xs[i]).len() > 0 && trim(xs[i]) == xs[i],
    ensures
        nonempty_trimmed(xs) == xs,
    decreases xs.len(),
{
    if xs.len() > 0 {
        let ys = xs.drop_last();
        assert forall|i: int| 0 <= i < ys.len() implies (#[trigger] ys[i]).len() > 0 && trim(ys[i])
            == ys[i] by {
            assert(ys[i] == xs[i]);
        }
        lemma_nonempty_trimmed_id(ys);
        assert(xs[xs.len() - 1] == xs.last());
        assert(ys.push(xs.last()) =~= xs);
    }
}

/// Trimming twice trims once.
pub proof fn lemma_trim_idempotent(s: Seq<char>)
    ensures
        trim(trim(s)) == trim(s),
{
    lemma_trim_bounds(s);
    lemma_trim_unchanged(trim(s));
}

pub proof fn lemma_trim_start_lacks(s: Seq<char>, c: char)
    requires
        !s.contains(c),
    ensures
        !trim_start(s).contains(c),
    decreases s.len(),
{
    if s.len() > 0 && is_whitespace(s[0]) {
        assert(!s.drop_first().contains(c)) by {
            if s.drop_first().contains(c) {
                let i = choose|i: int| 0 <= i < s.drop_first().len() && s.drop_first()[i] == c;
                assert(s[i + 1] == c);
            }
        }
        lemma_trim_start_lacks(s.drop_first(), c);
    }
}

pub proof fn lemma_trim_end_lacks(s: Seq<char>, c: char)
    requires
        !s.contains(c),
    ensures
        !trim_end(s).contains(c),
    decreases s.len(),
{
    if s.len() > 0 && is_whitespace(s.last()) {
        assert(!s.drop_last().contains(c)) by {
            if s.drop_last().contains(c) {
                let i = choose|i: int| 0 <= i < s.drop_last().len() && s.drop_last()[i] == c;
                assert(s[i] == c);
            }
        }
        lemma_trim_end_lacks(s.drop_last(), c);
    }
}

/// Trimming keeps a character out.
pub proof fn lemma_trim_lacks(s: Seq<char>, c: char)
    requires
        !s.contains(c),
    ensures
        !trim(s).contains(c),
{
    lemma_trim_start_lacks(s, c);
    lemma_trim_end_lacks(trim_start(s), c);
}

/// No piece of a split holds the separator.
pub proof fn lemma_split_pieces_lack_sep(s: Seq<char>, sep: char)
    ensures
        forall|i: int|
            0 <= i < split_state(s, sep).0.len() ==> !(#[trigger] split_state(s, sep).0[i]).contains(
                sep,
            ),
        !split_state(s, sep).1.contains(sep),
        forall|i: int| 0 <= i < split(s, sep).len() ==> !(#[trigger] split(s, sep)[i]).contains(sep),
    decreases s.len(),
{
    if s.len() > 0 {
        lemma_split_pieces_lack_sep(s.drop_last(), sep);
        let (d, c) = split_state(s.drop_last(), sep);
        if s.last() != sep {
            assert(!c.push(s.last()).contains(sep)) by {
                if c.push(s.last()).contains(sep) {
                    let i = choose|i: int| 0 <= i < c.push(s.last()).len() && c.push(s.last())[i] == sep;
                    if i < c.len() {
                        assert(c[i] == sep);
                    }
                }
            }
        } else {
            assert forall|i: int| 0 <= i < d.push(c).len() implies !(#[trigger] d.push(c)[i]).contains(sep) by {
                if i < d.len() {
                    assert(d.push(c)[i] == d[i]);
                }
            }
            assert(!Seq::<char>::empty().contains(sep));
        }
    }
    let (d, c) = split_state(s, sep);
    assert forall|i: int| 0 <= i < split(s, sep).len() implies !(#[trigger] split(s, sep)[i]).contains(
        sep,
    ) by {
        if i < d.len() {
            assert(split(s, sep)[i] == d[i]);
        }
    }
}

/// Every piece that `nonempty_trimmed` keeps is nonempty, trimmed, and
/// (when no input piece holds `c`) free of `c`.
pub proof fn lemma_nonempty_trimmed_pieces(xs: Seq<Seq<char>>, c: char)
    ensures
        forall|i: int|
            0 <= i < nonempty_trimmed(xs).len() ==> (#[trigger] nonempty_trimmed(xs)[i]).len() > 0
                && trim(nonempty_trimmed(xs)[i]) == nonempty_trimmed(xs)[i],
        (forall|j: int| 0 <= j < xs.len() ==> !(#[trigger] xs[j]).contains(c)) ==> forall|i: int|
            0 <= i < nonempty_trimmed(xs).len() ==> !(#[trigger] nonempty_trimmed(xs)[i]).contains(c),
    decreases xs.len(),
{
    if xs.len() > 0 {
        let ys = xs.drop_last();
        let t = trim(xs.last());
        lemma_nonempty_trimmed_pieces(ys, c);
        lemma_trim_idempotent(xs.last());
        let p = nonempty_trimmed(ys);
        let all = nonempty_trimmed(xs);
        if t.len() > 0 {
            assert(all == p.push(t));
            assert forall|i: int| 0 <= i < all.len() implies (#[trigger] all[i]).len() > 0 && trim(
                all[i],
            ) == all[i] by {
                if i < p.len() {
                    assert(all[i] == p[i]);
                }
            }
        } else {
            assert(all == p);
        }
        if forall|j: int| 0 <= j < xs.len() ==> !(#[trigger] xs[j]).contains(c) {
            assert forall|j: int| 0 <= j < ys.len() implies !(#[trigger] ys[j]).contains(c) by {
                assert(ys[j] == xs[j]);
            }
            assert(!xs[xs.len() - 1].contains(c));
            lemma_trim_lacks(xs.last(), c);
            if t.len() > 0 {
                assert forall|i: int| 0 <= i < all.len() implies !(#[trigger] all[i]).contains(c) by {
                    if i < p.len() {
                        assert(all[i] == p[i]);
                    }
                }
            }
        }
    }
}

/// A list written with commas reads back as the same list, when each item
/// is nonempty, trimmed, and free of commas.
pub proof fn lemma_comma_list_read_back(xs: Seq<Seq<char>>)
    requires
        forall|i: int|
            0 <= i < xs.len() ==> (#[trigger] xs[i]).len() > 0 && trim(xs[i]) == xs[i] && !xs[i].contains(
                ',',
            ),
    ensures
        nonempty_trimmed(split(join(xs, ","@), ',')) == xs,
{
    assert(","@ == seq![',']) by {
        reveal_strlit(",");
    }
    if xs.len() == 0 {
        assert(split_state(Seq::<char>::empty(), ',') == (
            Seq::<Seq<char>>::empty(),
            Seq::<char>::empty(),
        ));
        let e = Seq::<Seq<char>>::empty().push(Seq::<char>::empty());
        assert(join(xs, ","@) == Seq::<char>::empty());
        assert(split(Seq::<char>::empty(), ',') =~= e);
        assert(e.drop_last() =~= Seq::<Seq<char>>::empty());
        assert(e.last() == Seq::<char>::empty());
        assert(trim_start(Seq::<char>::empty()) == Seq::<char>::empty());
        assert(trim_end(Seq::<char>::empty()) == Seq::<char>::empty());
        assert(trim(e.last()).len() == 0);
        assert(nonempty_trimmed(e) == nonempty_trimmed(e.drop_last()));
        assert(nonempty_trimmed(e) =~= xs);
    } else {
        lemma_split_join(xs, ',');
        lemma_nonempty_trimmed_id(xs);
    }
}

/// Law: the decimal text of an `i64` parses back to the same `i64`.
pub proof fn law_i64_text_round_trip(n: i64)
    ensures
        parse_i64(int_text(n as int)) == Some(n),
{
    if n < 0 {
        let m = (-(n as int)) as nat;
        lemma_decimal(m);
        let s = seq!['-'] + decimal(m);
        assert(s[0] == '-');
        assert(s.drop_first() =~= decimal(m));
    } else {
        lemma_decimal(n as nat);
    }
}

// ---------------------------------------------------------------------------
// Executable helpers
// ---------------------------------------------------------------------------

/// `String::push`: appends one character to the end of the string.
#[verifier::external_body]
pub fn push_char(s: &mut String, c: char)
    ensures
        final(s)@ == old(s)@.push(c),
{
    s.push(c);
}

/// An owned copy of `s`.
pub fn to_owned_string(s: &str) -> (r: String)
    ensures
        r@ == s@,
{
    s.to_owned()
}

/// The characters of `s`, in order.
pub fn chars_of(s: &str) -> (v: Vec<char>)
    ensures
        v@ == s@,
{
    let mut v: Vec<char> = Vec::new();
    for c in it: s.chars()
        invariant
            v@ == it.seq().take(it.index() as int),
            it.seq() == s@,
    {
        v.push(c);
    }
    v
}

/// The string made of `v[lo..hi]`.
pub fn string_of(v: &Vec<char>, lo: usize, hi: usize) -> (s: String)
    requires
        lo <= hi <= v.len(),
    ensures
        s@ == v@.subrange(lo as int, hi as int),
{
    let mut s = String::new();
    let mut i = lo;
    while i < hi
        invariant
            lo <= i <= hi <= v.len(),
            s@ == v@.subrange(lo as int, i as int),
        decreases hi - i,
    {
        push_char(&mut s, v[i]);
        assert(v@.subrange(lo as int, i + 1) =~= v@.subrange(lo as int, i as int).push(v[i as int]));
        i = i + 1;
    }
    s
}

/// The string made of all of `v`.
pub fn string_of_all(v: &Vec<char>) -> (s: String)
    ensures
        s@ == v@,
{
    let s = string_of(v, 0, v.len());
    assert(v@.subrange(0, v.len() as int) =~= v@);
    s
}

/// `char::is_whitespace`.
pub fn char_is_whitespace(c: char) -> (r: bool)
    ensures
        r == is_whitespace(c),
{
    let u = c as u32;
    (0x9 <= u && u <= 0xd) || u == 0x20 || u == 0x85 || u == 0xa0 || u == 0x1680 || (0x2000 <= u
        && u <= 0x200a) || u == 0x2028 || u == 0x2029 || u == 0x202f || u == 0x205f || u == 0x3000
}

/// The bounds of `v` without its leading and trailing whitespace.
pub fn trim_bounds(v: &Vec<char>) -> (r: (usize, usize))
    ensures
        r.0 <= r.1 <= v.len(),
        v@.subrange(r.0 as int, r.1 as int) == trim(v@),
{
    let n = v.len();
    let mut lo: usize = 0;
    assert(v@.skip(0) =~= v@);
    while lo < n && char_is_whitespace(v[lo])
        invariant
            lo <= n == v.len(),
            trim_start(v@) == trim_start(v@.skip(lo as int)),
        decreases n - lo,
    {
        assert(v@.skip(lo as int).drop_first() =~= v@.skip(lo + 1));
        lo = lo + 1;
    }
    assert(trim_start(v@.skip(lo as int)) == v@.skip(lo as int));
    let mut hi: usize = n;
    assert(v@.subrange(lo as int, n as int) =~= v@.skip(lo as int));
    while hi > lo && char_is_whitespace(v[hi - 1])
        invariant
            lo <= hi <= n == v.len(),
            trim_end(v@.skip(lo as int)) == trim_end(v@.subrange(lo as int, hi as int)),
        decreases hi - lo,
    {
        assert(v@.subrange(lo as int, hi as int).drop_last() =~= v@.subrange(
            lo as int,
            hi - 1,
        ));
        hi = hi - 1;
    }
    (lo, hi)
}

/// `str::trim`: `s` without leading and trailing whitespace.
pub fn trim_str(s: &str) -> (r: String)
    ensures
        r@ == trim(s@),
{
    let v = chars_of(s);
    let (lo, hi) = trim_bounds(&v);
    string_of(&v, lo, hi)
}

/// The first index at which `v` holds `c`.
pub fn index_of_char(v: &Vec<char>, c: char) -> (r: Option<usize>)
    ensures
        r matches Some(i) ==> index_of(v@, c) == Some(i as int),
        r is None ==> index_of(v@, c) is None,
{
    let mut i: usize = 0;
    while i < v.len()
        invariant
            i <= v.len(),
            index_of(v@, c) == index_of_from(v@, c, i as int),
        decreases v.len() - i,
    {
        if v[i] == c {
            return Some(i);
        }
        i = i + 1;
    }
    None
}

/// Whether `v[i..]` begins with `pat`.
pub fn occurs_at_exec(v: &Vec<char>, pat: &Vec<char>, i: usize) -> (r: bool)
    ensures
        r == occurs_at(v@, pat@, i as int),
{
    if pat.len() > v.len() || i > v.len() - pat.len() {
        return false;
    }
    let mut k: usize = 0;
    while k < pat.len()
        invariant
            k <= pat.len(),
            i + pat.len() <= v.len(),
            forall|j: int| 0 <= j < k ==> v@[i + j] == pat@[j],
        decreases pat.len() - k,
    {
        if v[i + k] != pat[k] {
            assert(v@.subrange(i as int, i + pat.len())[k as int] != pat@[k as int]);
            return false;
        }
        k = k + 1;
    }
    assert(v@.subrange(i as int, i + pat.len()) =~= pat@);
    true
}

/// The first index at which `pat` occurs in `v`.
pub fn find_exec(v: &Vec<char>, pat: &Vec<char>) -> (r: Option<usize>)
    ensures
        r matches Some(i) ==> find(v@, pat@) == Some(i as int),
        r is None ==> find(v@, pat@) is None,
{
    if pat.len() > v.len() {
        return None;
    }
    let last = v.len() - pat.len();
    let mut i: usize = 0;
    loop
        invariant
            last + pat.len() == v.len(),
            i <= last,
            find(v@, pat@) == find_from(v@, pat@, i as int),
        decreases last - i,
    {
        if occurs_at_exec(v, pat, i) {
            return Some(i);
        }
        if i == last {
            assert(find_from(v@, pat@, i + 1) is None);
            return None;
        }
        i = i + 1;
    }
}

/// Whether `s` begins with `prefix`.
pub fn starts_with_str(s: &str, prefix: &str) -> (r: bool)
    ensures
        r == starts_with(s@, prefix@),
{
    let v = chars_of(s);
    let p = chars_of(prefix);
    let r = occurs_at_exec(&v, &p, 0);
    assert(v@.subrange(0, p@.len() as int) =~= v@.take(p@.len() as int));
    r
}

/// `str::split` by one character.
pub fn split_str(s: &str, sep: char) -> (r: Vec<String>)
    ensures
        views(r@) == split(s@, sep),
{
    let v = chars_of(s);
    let mut done: Vec<String> = Vec::new();
    let mut start: usize = 0;
    let mut i: usize = 0;
    while i < v.len()
        invariant
            start <= i <= v.len(),
            v@ == s@,
            split_state(v@.take(i as int), sep) == (views(done@), v@.subrange(
                start as int,
                i as int,
            )),
        decreases v.len() - i,
    {
        proof {
            lemma_split_state_push(v@.take(i as int), sep, v@[i as int]);
            assert(v@.take(i + 1) =~= v@.take(i as int).push(v@[i as int]));
        }
        if v[i] == sep {
            let piece = string_of(&v, start, i);
            done.push(piece);
            assert(views(done@) =~= views(done@.drop_last()).push(piece@));
            start = i + 1;
            assert(v@.subrange(start as int, i + 1) =~= Seq::<char>::empty());
        } else {
            assert(v@.subrange(start as int, i + 1) =~= v@.subrange(start as int, i as int).push(
                v@[i as int],
            ));
        }
        i = i + 1;
    }
    let last = string_of(&v, start, v.len());
    done.push(last);
    assert(v@.take(v.len() as int) =~= v@);
    assert(views(done@) =~= views(done@.drop_last()).push(last@));
    done
}

/// `parts` joined with `sep` between consecutive parts.
pub fn join_strings(parts: &Vec<String>, sep: &str) -> (r: String)
    ensures
        r@ == join(views(parts@), sep@),
{
    let mut r = String::new();
    let mut i: usize = 0;
    while i < parts.len()
        invariant
            i <= parts.len(),
            r@ == join(views(parts@.take(i as int)), sep@),
        decreases parts.len() - i,
    {
        proof {
            lemma_join_push(views(parts@.take(i as int)), parts@[i as int]@, sep@);
            assert(views(parts@.take(i + 1)) =~= views(parts@.take(i as int)).push(
                parts@[i as int]@,
            ));
        }
        if i > 0 {
            r.append(sep);
        }
        r.append(parts[i].as_str());
        i = i + 1;
    }
    assert(parts@.take(parts.len() as int) =~= parts@);
    r
}

/// The number of times `c` occurs in `s`.
pub fn count_char_exec(s: &str, c: char) -> (r: usize)
    ensures
        r == count_char(s@, c),
{
    let v = chars_of(s);
    let mut n: usize = 0;
    let mut i: usize = 0;
    while i < v.len()
        invariant
            i <= v.len(),
            n == count_char(v@.take(i as int), c),
            n <= i,
        decreases v.len() - i,
    {
        proof {
            lemma_count_char_push(v@.take(i as int), c, v@[i as int]);
            assert(v@.take(i + 1) =~= v@.take(i as int).push(v@[i as int]));
        }
        if v[i] == c {
            n = n + 1;
        }
        i = i + 1;
    }
    assert(v@.take(v.len() as int) =~= v@);
    n
}

fn digit_char_exec(d: u64) -> (c: char)
    requires
        d < 10,
    ensures
        c == digit_char(d as nat),
{
    if d == 0 {
        '0'
    } else if d == 1 {
        '1'
    } else if d == 2 {
        '2'
    } else if d == 3 {
        '3'
    } else if d == 4 {
        '4'
    } else if d == 5 {
        '5'
    } else if d == 6 {
        '6'
    } else if d == 7 {
        '7'
    } else if d == 8 {
        '8'
    } else {
        '9'
    }
}

/// Appends the decimal text of `n` to `out`.
pub fn push_decimal(out: &mut String, n: u64)
    ensures
        final(out)@ == old(out)@ + decimal(n as nat),
    decreases n,
{
    if n >= 10 {
        push_decimal(out, n / 10);
    }
    push_char(out, digit_char_exec(n % 10));
    proof {
        if n < 10 {
            assert(old(out)@.push(digit_char((n % 10) as nat)) =~= old(out)@ + decimal(n as nat));
        } else {
            assert(decimal(n as nat) == decimal((n / 10) as nat).push(digit_char((n % 10) as nat)));
        }
    }
}

/// `i64::to_string`.
pub fn i64_to_text(n: i64) -> (r: String)
    ensures
        r@ == int_text(n as int),
{
    let mut r = String::new();
    if n < 0 {
        push_char(&mut r, '-');
        let m: u64 = if n == i64::MIN {
            9223372036854775808u64
        } else {
            (-n) as u64
        };
        push_decimal(&mut r, m);
    } else {
        push_decimal(&mut r, n as u64);
        assert(r@ =~= decimal(n as nat));
    }
    r
}

/// `str::parse::<i64>`, with `None` for every input that it refuses.
pub fn parse_i64_exec(s: &str) -> (r: Option<i64>)
    ensures
        r == parse_i64(s@),
{
    let v = chars_of(s);
    let n = v.len();
    let neg = n > 0 && v[0] == '-';
    let signed = n > 0 && (v[0] == '-' || v[0] == '+');
    let start: usize = if signed {
        1
    } else {
        0
    };
    let ghost body = if signed {
        s@.drop_first()
    } else {
        s@
    };
    assert(body =~= v@.skip(start as int));
    if start >= n {
        return None;
    }
    // the magnitude, capped once it passes 2^63
    let limit: u128 = 9223372036854775808u128;
    let mut acc: u128 = 0;
    let mut over = false;
    let mut i: usize = start;
    while i < n
        invariant
            start <= i <= n == v.len(),
            limit == 9223372036854775808u128,
            body == v@.skip(start as int),
            v@ == s@,
            body == (if s@.len() > 0 && (s@[0] == '-' || s@[0] == '+') {
                s@.drop_first()
            } else {
                s@
            }),
            forall|j: int| start <= j < i ==> is_digit(#[trigger] v@[j]),
            !over ==> acc == digits_value(v@.subrange(start as int, i as int)),
            !over ==> acc <= limit,
            over ==> digits_value(v@.subrange(start as int, i as int)) > limit,
        decreases n - i,
    {
        let c = v[i];
        if !('0' <= c && c <= '9') {
            assert(body[i - start] == c);
            assert(!all_digits(body));
            return None;
        }
        proof {
            assert(v@.subrange(start as int, i + 1) =~= v@.subrange(start as int, i as int).push(
                c,
            ));
            lemma_digits_value_push(v@.subrange(start as int, i as int), c);
            assert(all_digits(v@.subrange(start as int, i as int))) by {
                assert forall|j: int| 0 <= j < i - start implies is_digit(
                    #[trigger] v@.subrange(start as int, i as int)[j],
                ) by {
                    assert(v@.subrange(start as int, i as int)[j] == v@[start + j]);
                }
            }
            lemma_digits_value_nonneg(v@.subrange(start as int, i as int));
        }
        let d = (c as u32 - '0' as u32) as u128;
        if !over {
            let next = acc * 10 + d;
            if next > limit {
                over = true;
            } else {
                acc = next;
            }
        }
        i = i + 1;
    }
    assert(v@.subrange(start as int, n as int) =~= body);
    assert(all_digits(body)) by {
        assert forall|j: int| 0 <= j < body.len() implies is_digit(#[trigger] body[j]) by {
            assert(body[j] == v@[start + j]);
        }
    }
    if over {
        return None;
    }
    if neg {
        if acc == limit {
            Some(i64::MIN)
        } else {
            Some(-(acc as i64))
        }
    } else {
        if acc == limit {
            None
        } else {
            Some(acc as i64)
        }
    }
}

/// The trimmed, nonempty pieces of `s` between separators.
pub fn trimmed_pieces(stored: &str, sep: char) -> (r: Vec<String>)
    ensures
        views(r@) == nonempty_trimmed(split(stored@, sep)),
{
    let parts = split_str(stored, sep);
    let mut r: Vec<String> = Vec::new();
    let mut i: usize = 0;
    while i < parts.len()
        invariant
            i <= parts@.len(),
            views(r@) == nonempty_trimmed(views(parts@.take(i as int))),
        decreases parts@.len() - i,
    {
        assert(views(parts@.take(i + 1)).drop_last() =~= views(parts@.take(i as int)));
        assert(views(parts@.take(i + 1)).last() == parts@[i as int]@);
        let t = trim_str(parts[i].as_str());
        if !t.as_str().is_empty() {
            let ghost before = r@;
            r.push(t);
            assert(views(r@) =~= views(before).push(t@));
        }
        i = i + 1;
    }
    assert(parts@.take(i as int) =~= parts@);
    r
}

} // verus!
