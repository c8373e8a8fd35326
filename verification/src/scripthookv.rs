//! The ScriptHookV notifier: reports a new version on the download page.

use vstd::prelude::*;

use crate::github::{byte_len, char_width, chars_in_bytes, lemma_byte_len_prefix, lemma_byte_len_take};
use crate::notifier::{Notification, notification_view};
use crate::storage::{Transaction, map_get};
use crate::text::{
    chars_of, count_char, count_char_exec, find, find_exec, occurs_at, opt_view,
    string_of, to_owned_string,
};

verus! {

// ---------------------------------------------------------------------------
// The regular expression engine
// ---------------------------------------------------------------------------

/// What the `regex` crate gives for a pattern and a haystack: `None` when
/// the pattern does not compile; otherwise, for each successive
/// non-overlapping match, the text of capture group `group` (`None` when
/// the group took no part in the match).
pub uninterp spec fn regex_group_captures(pattern: Seq<char>, haystack: Seq<char>, group: nat) -> Option<
    Seq<Option<Seq<char>>>,
>;

pub open spec fn opt_strings_view(v: Seq<Option<String>>) -> Seq<Option<Seq<char>>> {
    v.map_values(|o: Option<String>| opt_view(o))
}

/// `regex::Regex::new(pattern)`, then `captures_iter(haystack)`, keeping
/// group `group` of each match as a string. The contract names the result
/// (it is a function of the arguments alone) and states what the regex
/// documentation promises of each group's text: it is a substring of the
/// haystack (`Match::as_str`).
#[verifier::external_body]
fn regex_captures(pattern: &str, haystack: &str, group: usize) -> (r: Option<Vec<Option<String>>>)
    ensures
        match r {
            Some(v) => regex_group_captures(pattern@, haystack@, group as nat) == Some(
                opt_strings_view(v@),
            ),
            None => regex_group_captures(pattern@, haystack@, group as nat) is None,
        },
        r matches Some(v) ==> forall|i: int|
            0 <= i < v@.len() && v@[i] is Some ==> exists|a: int|
                occurs_at(haystack@, (#[trigger] v@[i])->0@, a),
{
    let re = regex::Regex::new(pattern).ok()?;
    Some(re.captures_iter(haystack).map(|c| c.get(group).map(|m| m.as_str().to_string())).collect())
}

// ---------------------------------------------------------------------------
// Finding the version on the page
// ---------------------------------------------------------------------------

/// The pattern of a version number: three or four dot-separated numbers,
/// after an optional `v`.
pub open spec fn version_pattern() -> Seq<char> {
    "v?(\\d+\\.\\d+\\.\\d+(?:\\.\\d+)?)"@
}

fn version_pattern_exec() -> (r: &'static str)
    ensures
        r@ == version_pattern(),
{
    "v?(\\d+\\.\\d+\\.\\d+(?:\\.\\d+)?)"
}

/// The byte offset where the search for a version starts: 500 bytes before
/// the downloads section (or the first `download`), or the page start.
pub open spec fn window_start(html: Seq<char>) -> nat {
    let pos = match find(html, "downloadsSection"@) {
        Some(i) => i,
        None => match find(html, "download"@) {
            Some(i) => i,
            None => 0,
        },
    };
    let b = byte_len(html.take(pos));
    if b >= 500 {
        (b - 500) as nat
    } else {
        0
    }
}

/// Whether the page can be searched: the search window starts at a
/// character boundary, and the page is under 2 GiB, so that every version
/// text found on it is too: the lengths of those texts are compared as
/// `i32` values, negated, which wraps or overflows from 2 GiB on.
pub open spec fn page_searchable(html: Seq<char>) -> bool {
    &&& byte_len(html) < 0x8000_0000
    &&& chars_in_bytes(html, window_start(html), 0) is Some
}

/// The captured texts with at least two dots (a missing group counts as
/// the empty text).
pub open spec fn candidates(caps: Seq<Option<Seq<char>>>) -> Seq<Seq<char>>
    decreases caps.len(),
{
    if caps.len() == 0 {
        Seq::empty()
    } else {
        let t = match caps.last() {
            Some(t) => t,
            None => Seq::empty(),
        };
        if count_char(t, '.') >= 2 {
            candidates(caps.drop_last()).push(t)
        } else {
            candidates(caps.drop_last())
        }
    }
}

/// The first of the longest (in bytes) candidates.
pub open spec fn longest(c: Seq<Seq<char>>) -> Option<Seq<char>>
    decreases c.len(),
{
    if c.len() == 0 {
        None
    } else {
        match longest(c.drop_last()) {
            Some(b) => if byte_len(c.last()) > byte_len(b) {
                Some(c.last())
            } else {
                Some(b)
            },
            None => Some(c.last()),
        }
    }
}

/// The version on the page: the longest version-like text in the search
/// window, or on the whole page when the window has none.
pub open spec fn page_version(html: Seq<char>) -> Option<Seq<char>> {
    let k = chars_in_bytes(html, window_start(html), 0)->0;
    match regex_group_captures(version_pattern(), html.skip(k), 1) {
        None => None,
        Some(caps) => {
            let c = candidates(caps);
            if c.len() > 0 {
                longest(c)
            } else {
                match regex_group_captures(version_pattern(), html, 1) {
                    None => None,
                    Some(caps2) => longest(candidates(caps2)),
                }
            }
        },
    }
}

/// Whether `c[i]` is the first of the longest texts of `c`, in bytes.
pub open spec fn first_longest_at(c: Seq<Seq<char>>, i: int) -> bool {
    &&& 0 <= i < c.len()
    &&& forall|j: int| 0 <= j < c.len() ==> byte_len(#[trigger] c[j]) <= byte_len(c[i])
    &&& forall|j: int| 0 <= j < i ==> byte_len(#[trigger] c[j]) < byte_len(c[i])
}

/// The text a capture stands for: a missing group is the empty text.
pub open spec fn capture_text(o: Option<Seq<char>>) -> Seq<char> {
    match o {
        Some(t) => t,
        None => Seq::empty(),
    }
}

/// Law: `longest` picks the first of the longest texts, and nothing only
/// from nothing.
pub proof fn law_longest_is_first_longest(c: Seq<Seq<char>>)
    ensures
        c.len() == 0 <==> longest(c) is None,
        c.len() > 0 ==> exists|i: int| first_longest_at(c, i) && longest(c) == Some(c[i]),
    decreases c.len(),
{
    if c.len() > 0 {
        let p = c.drop_last();
        let n = c.len() - 1;
        law_longest_is_first_longest(p);
        if p.len() == 0 {
            assert(first_longest_at(c, 0));
        } else {
            let i = choose|i: int| first_longest_at(p, i) && longest(p) == Some(p[i]);
            assert(c[i] == p[i]);
            if byte_len(c.last()) > byte_len(p[i]) {
                assert forall|j: int| 0 <= j < c.len() implies byte_len(#[trigger] c[j]) <= byte_len(
                    c[n],
                ) by {
                    if j < n {
                        assert(c[j] == p[j]);
                    }
                }
                assert forall|j: int| 0 <= j < n implies byte_len(#[trigger] c[j]) < byte_len(c[n]) by {
                    assert(c[j] == p[j]);
                }
                assert(first_longest_at(c, n));
            } else {
                assert forall|j: int| 0 <= j < c.len() implies byte_len(#[trigger] c[j]) <= byte_len(
                    c[i],
                ) by {
                    if j < n {
                        assert(c[j] == p[j]);
                    }
                }
                assert forall|j: int| 0 <= j < i implies byte_len(#[trigger] c[j]) < byte_len(c[i]) by {
                    assert(c[j] == p[j]);
                }
                assert(first_longest_at(c, i));
            }
        }
    }
}

/// Law: the candidates are the captured texts with at least two dots, in
/// the order they were captured.
pub proof fn law_candidates(caps: Seq<Option<Seq<char>>>)
    ensures
        forall|i: int|
            0 <= i < candidates(caps).len() ==> count_char(#[trigger] candidates(caps)[i], '.') >= 2,
        forall|i: int|
            0 <= i < candidates(caps).len() ==> exists|k: int|
                0 <= k < caps.len() && capture_text(caps[k]) == #[trigger] candidates(caps)[i],
        forall|k: int|
            0 <= k < caps.len() && count_char(capture_text(#[trigger] caps[k]), '.') >= 2
                ==> candidates(caps).contains(capture_text(caps[k])),
        candidates(caps).len() <= caps.len(),
    decreases caps.len(),
{
    if caps.len() > 0 {
        let p = caps.drop_last();
        let n = caps.len() - 1;
        law_candidates(p);
        let cp = candidates(p);
        let c = candidates(caps);
        let t = capture_text(caps.last());
        assert(c == cp || c == cp.push(t));
        assert forall|i: int| 0 <= i < c.len() implies exists|k: int|
            0 <= k < caps.len() && capture_text(caps[k]) == #[trigger] c[i] by {
            if i < cp.len() {
                assert(c[i] == cp[i]);
                let k = choose|k: int| 0 <= k < p.len() && capture_text(p[k]) == cp[i];
                assert(caps[k] == p[k]);
            } else {
                assert(capture_text(caps[n]) == c[i]);
            }
        }
        assert forall|i: int| 0 <= i < c.len() implies count_char(#[trigger] c[i], '.') >= 2 by {
            if i < cp.len() {
                assert(c[i] == cp[i]);
            }
        }
        assert forall|k: int|
            0 <= k < caps.len() && count_char(capture_text(#[trigger] caps[k]), '.') >= 2
                implies c.contains(capture_text(caps[k])) by {
            if k < n {
                assert(caps[k] == p[k]);
                let j = choose|j: int| 0 <= j < cp.len() && cp[j] == capture_text(p[k]);
                assert(c[j] == cp[j]);
            } else {
                assert(c[c.len() - 1] == t);
            }
        }
    }
}

/// Law: where the version is looked for. When the search window (from its
/// start `k`) has candidates, the version is the first longest of them;
/// when it has none, the whole page is searched, and the version is the
/// first longest candidate of the whole page, if there is one.
pub proof fn law_page_version(
    html: Seq<char>,
    k: int,
    caps: Seq<Option<Seq<char>>>,
    caps2: Seq<Option<Seq<char>>>,
)
    requires
        chars_in_bytes(html, window_start(html), 0) == Some(k),
    ensures
        regex_group_captures(version_pattern(), html.skip(k), 1) is None ==> page_version(html) is None,
        regex_group_captures(version_pattern(), html.skip(k), 1) == Some(caps) && candidates(caps).len()
            > 0 ==> exists|i: int|
            first_longest_at(candidates(caps), i) && page_version(html) == Some(candidates(caps)[i]),
        regex_group_captures(version_pattern(), html.skip(k), 1) == Some(caps) && candidates(caps).len()
            == 0 && regex_group_captures(version_pattern(), html, 1) == Some(caps2) && candidates(
            caps2,
        ).len() > 0 ==> exists|i: int|
            first_longest_at(candidates(caps2), i) && page_version(html) == Some(candidates(caps2)[i]),
        regex_group_captures(version_pattern(), html.skip(k), 1) == Some(caps) && candidates(caps).len()
            == 0 && regex_group_captures(version_pattern(), html, 1) == Some(caps2) && candidates(
            caps2,
        ).len() == 0 ==> page_version(html) is None,
        regex_group_captures(version_pattern(), html.skip(k), 1) == Some(caps) && candidates(caps).len()
            == 0 && regex_group_captures(version_pattern(), html, 1) is None ==> page_version(html) is None,
{
    law_longest_is_first_longest(candidates(caps));
    law_longest_is_first_longest(candidates(caps2));
}

pub proof fn lemma_byte_len_add(a: Seq<char>, b: Seq<char>)
    ensures
        byte_len(a + b) == byte_len(a) + byte_len(b),
    decreases b.len(),
{
    if b.len() == 0 {
        assert(a + b =~= a);
    } else {
        lemma_byte_len_add(a, b.drop_last());
        assert((a + b).drop_last() =~= a + b.drop_last());
    }
}

/// A substring takes no more bytes than the whole.
pub proof fn lemma_byte_len_substring(h: Seq<char>, g: Seq<char>, a: int)
    requires
        occurs_at(h, g, a),
    ensures
        byte_len(g) <= byte_len(h),
{
    let end = a + g.len();
    assert(h =~= h.take(a) + g + h.skip(end));
    lemma_byte_len_add(h.take(a) + g, h.skip(end));
    lemma_byte_len_add(h.take(a), g);
}

/// The number of leading characters of `v` that take exactly `n` bytes.
fn chars_for_bytes(v: &Vec<char>, n: usize) -> (r: Option<usize>)
    requires
        byte_len(v@) < 0x8000_0000,
    ensures
        match r {
            Some(k) => chars_in_bytes(v@, n as nat, 0) == Some(k as int),
            None => chars_in_bytes(v@, n as nat, 0) is None,
        },
{
    let mut k: usize = 0;
    let mut acc: usize = 0;
    assert(v@.take(0) =~= Seq::<char>::empty());
    while k < v.len() && acc < n
        invariant
            k <= v@.len(),
            acc == byte_len(v@.take(k as int)),
            byte_len(v@) < 0x8000_0000,
            acc < n ==> chars_in_bytes(v@, n as nat, 0) == chars_in_bytes(v@, n as nat, k as int),
            acc == n ==> chars_in_bytes(v@, n as nat, 0) == Some(k as int),
            acc > n ==> chars_in_bytes(v@, n as nat, 0) is None,
        decreases v@.len() - k,
    {
        proof {
            lemma_byte_len_take(v@, k as int);
            lemma_byte_len_prefix(v@, k + 1);
        }
        acc = acc + char_width_of(v[k]);
        k = k + 1;
    }
    if acc == n {
        Some(k)
    } else {
        proof {
            if acc < n {
                assert(k == v@.len());
                assert(chars_in_bytes(v@, n as nat, (k + 1) as int) is None);
            }
        }
        None
    }
}

fn char_width_of(c: char) -> (w: usize)
    ensures
        w == char_width(c),
{
    let u = c as u32;
    if u < 0x80 {
        1
    } else if u < 0x800 {
        2
    } else if u < 0x10000 {
        3
    } else {
        4
    }
}

/// The number of bytes of `v[..k]`.
fn prefix_bytes(v: &Vec<char>, k: usize) -> (r: usize)
    requires
        k <= v@.len(),
        byte_len(v@) < 0x8000_0000,
    ensures
        r == byte_len(v@.take(k as int)),
{
    let mut i: usize = 0;
    let mut acc: usize = 0;
    assert(v@.take(0) =~= Seq::<char>::empty());
    while i < k
        invariant
            i <= k <= v@.len(),
            acc == byte_len(v@.take(i as int)),
            byte_len(v@) < 0x8000_0000,
        decreases k - i,
    {
        proof {
            lemma_byte_len_take(v@, i as int);
            lemma_byte_len_prefix(v@, i + 1);
        }
        acc = acc + char_width_of(v[i]);
        i = i + 1;
    }
    acc
}

/// The candidates among captured texts.
fn candidates_exec(caps: &Vec<Option<String>>, bound: Ghost<Seq<char>>) -> (r: Vec<String>)
    requires
        forall|i: int|
            0 <= i < caps@.len() && caps@[i] is Some ==> exists|a: int|
                occurs_at(bound@, (#[trigger] caps@[i])->0@, a),
    ensures
        crate::text::views(r@) == candidates(opt_strings_view(caps@)),
        forall|i: int| 0 <= i < r@.len() ==> byte_len(#[trigger] r@[i]@) <= byte_len(bound@),
{
    let mut r: Vec<String> = Vec::new();
    let mut i: usize = 0;
    while i < caps.len()
        invariant
            i <= caps@.len(),
            crate::text::views(r@) == candidates(opt_strings_view(caps@.take(i as int))),
            forall|j: int| 0 <= j < r@.len() ==> byte_len(#[trigger] r@[j]@) <= byte_len(bound@),
            forall|i: int|
                0 <= i < caps@.len() && caps@[i] is Some ==> exists|a: int|
                    occurs_at(bound@, (#[trigger] caps@[i])->0@, a),
        decreases caps@.len() - i,
    {
        assert(opt_strings_view(caps@.take(i + 1)).drop_last() =~= opt_strings_view(
            caps@.take(i as int),
        ));
        assert(opt_strings_view(caps@.take(i + 1)).last() == opt_view(caps@[i as int]));
        let t = match &caps[i] {
            Some(t) => t.clone(),
            None => String::new(),
        };
        proof {
            if caps@[i as int] is Some {
                let a = choose|a: int| occurs_at(bound@, caps@[i as int]->0@, a);
                lemma_byte_len_substring(bound@, t@, a);
            } else {
                assert(t@ =~= Seq::<char>::empty());
            }
        }
        if count_char_exec(t.as_str(), '.') >= 2 {
            let ghost before = r@;
            r.push(t);
            assert(crate::text::views(r@) =~= crate::text::views(before).push(t@));
        }
        i = i + 1;
    }
    assert(caps@.take(i as int) =~= caps@);
    r
}

fn byte_len_of(s: &String) -> (r: usize)
    requires
        byte_len(s@) < 0x8000_0000,
    ensures
        r == byte_len(s@),
{
    let v = chars_of(s.as_str());
    let r = prefix_bytes(&v, v.len());
    assert(v@.take(v@.len() as int) =~= v@);
    r
}

/// The first of the longest candidates.
fn longest_exec(c: &Vec<String>) -> (r: Option<String>)
    requires
        forall|i: int| 0 <= i < c@.len() ==> byte_len(#[trigger] c@[i]@) < 0x8000_0000,
    ensures
        opt_view(r) == longest(crate::text::views(c@)),
{
    let mut best: Option<String> = None;
    let mut best_len: usize = 0;
    let mut i: usize = 0;
    while i < c.len()
        invariant
            i <= c@.len(),
            forall|i: int| 0 <= i < c@.len() ==> byte_len(#[trigger] c@[i]@) < 0x8000_0000,
            opt_view(best) == longest(crate::text::views(c@.take(i as int))),
            best matches Some(b) ==> best_len == byte_len(b@),
        decreases c@.len() - i,
    {
        assert(crate::text::views(c@.take(i + 1)).drop_last() =~= crate::text::views(
            c@.take(i as int),
        ));
        assert(crate::text::views(c@.take(i + 1)).last() == c@[i as int]@);
        let n = byte_len_of(&c[i]);
        match best {
            Some(_) => {
                if n > best_len {
                    best = Some(c[i].clone());
                    best_len = n;
                }
            },
            None => {
                best = Some(c[i].clone());
                best_len = n;
            },
        }
        i = i + 1;
    }
    assert(c@.take(i as int) =~= c@);
    best
}

/// Whether the page can be searched for a version: the search window starts
/// at a character boundary, and the page is under 2 GiB.
pub fn page_searchable_exec(html: &str) -> (r: bool)
    ensures
        r == page_searchable(html@),
{
    let v = chars_of(html);
    // the page length is computed in `u64` to rule out overflow
    let mut total: u64 = 0;
    let mut i: usize = 0;
    assert(v@.take(0) =~= Seq::<char>::empty());
    while i < v.len()
        invariant
            i <= v@.len(),
            total == byte_len(v@.take(i as int)),
            total < 0x8000_0000,
            v@ == html@,
        decreases v@.len() - i,
    {
        proof {
            lemma_byte_len_take(v@, i as int);
        }
        total = total + char_width_of(v[i]) as u64;
        if total >= 0x8000_0000 {
            proof {
                lemma_byte_len_prefix(v@, i + 1);
                assert(total == byte_len(v@.take(i + 1)));
                assert(byte_len(html@) >= 0x8000_0000);
            }
            return false;
        }
        i = i + 1;
    }
    assert(v@.take(i as int) =~= v@);
    let start = window_start_exec(&v);
    chars_for_bytes(&v, start).is_some()
}

fn window_start_exec(v: &Vec<char>) -> (r: usize)
    requires
        byte_len(v@) < 0x8000_0000,
    ensures
        r == window_start(v@),
{
    let section = chars_of("downloadsSection");
    let download = chars_of("download");
    let pos = match find_exec(v, &section) {
        Some(i) => i,
        None => match find_exec(v, &download) {
            Some(i) => i,
            None => 0,
        },
    };
    proof {
        crate::text::lemma_find_from_in_range(v@, section@, 0);
        crate::text::lemma_find_from_in_range(v@, download@, 0);
    }
    let b = prefix_bytes(v, pos);
    if b >= 500 {
        b - 500
    } else {
        0
    }
}

/// Finds the version on the download page.
pub fn extract_version(html: &str) -> (r: Option<String>)
    requires
        page_searchable(html@),
    ensures
        opt_view(r) == page_version(html@),
{
    let v = chars_of(html);
    let start = window_start_exec(&v);
    let k = match chars_for_bytes(&v, start) {
        Some(k) => k,
        None => {
            return None;
        },
    };
    proof {
        crate::github::lemma_chars_in_bytes_range(v@, start as nat, 0);
    }
    let window = string_of(&v, k, v.len());
    assert(v@.subrange(k as int, v@.len() as int) =~= v@.skip(k as int));
    let pattern = version_pattern_exec();
    let caps = match regex_captures(pattern, window.as_str(), 1) {
        Some(caps) => caps,
        None => {
            return None;
        },
    };
    proof {
        assert forall|i: int| 0 <= i < caps@.len() && caps@[i] is Some implies exists|a: int|
            occurs_at(html@, (#[trigger] caps@[i])->0@, a) by {
            let a = choose|a: int| occurs_at(window@, caps@[i]->0@, a);
            let g = caps@[i]->0@;
            assert(html@.subrange(k + a, k + a + g.len()) =~= window@.subrange(a, a + g.len()));
            assert(occurs_at(html@, g, k + a));
        }
    }
    let c = candidates_exec(&caps, Ghost(html@));
    if c.len() > 0 {
        return longest_exec(&c);
    }
    let caps2 = match regex_captures(pattern, html, 1) {
        Some(caps2) => caps2,
        None => {
            return None;
        },
    };
    let c2 = candidates_exec(&caps2, Ghost(html@));
    longest_exec(&c2)
}

// ---------------------------------------------------------------------------
// The check
// ---------------------------------------------------------------------------

/// The ScriptHookV notifier.
pub struct ScriptHookV;

/// The download page.
pub open spec fn page_url() -> Seq<char> {
    "http://www.dev-c.com/gtav/scripthookv/"@
}

/// Where the last version seen is kept.
pub open spec fn version_key() -> Seq<char> {
    "scripthookv_version"@
}

/// What a look at the download page found.
pub enum PageCheck {
    /// No version could be found on the page.
    NoVersion,
    /// The version is the one recorded.
    Unchanged,
    /// A version other than the recorded one (or the first one seen).
    Changed(Notification),
}

/// The view of a page check: `None` for no version, `Some(None)` when
/// unchanged, and the report otherwise.
pub open spec fn page_check_view(c: PageCheck) -> Option<Option<(Seq<char>, Seq<char>)>> {
    match c {
        PageCheck::NoVersion => None,
        PageCheck::Unchanged => Some(None),
        PageCheck::Changed(n) => Some(Some(notification_view(n))),
    }
}

/// The report of a version change.
pub open spec fn version_report(version: Seq<char>, previous: Option<Seq<char>>) -> (
    Seq<char>,
    Seq<char>,
) {
    match previous {
        Some(old) => (
            "ScriptHookV updated to "@ + version,
            "A new version of ScriptHookV is available: "@ + version + "\n\nPrevious version: "@
                + old + "\n\n"@ + page_url(),
        ),
        None => (
            "ScriptHookV "@ + version + " detected"@,
            "Initial ScriptHookV version detected: "@ + version + "\n\n"@ + page_url(),
        ),
    }
}

/// The state after looking at the page, and what was found: a version
/// other than the recorded one is recorded and reported.
pub open spec fn page_outcome(tx: Map<Seq<char>, Seq<char>>, html: Seq<char>) -> (
    Map<Seq<char>, Seq<char>>,
    Option<Option<(Seq<char>, Seq<char>)>>,
) {
    match page_version(html) {
        None => (tx, None),
        Some(v) => {
            let prev = map_get(tx, version_key());
            if prev == Some(v) {
                (tx, Some(None))
            } else {
                (tx.insert(version_key(), v), Some(Some(version_report(v, prev))))
            }
        },
    }
}

/// Law: a version is reported once. Looking at the same page again, right
/// after a look that found a version, finds it unchanged.
pub proof fn law_version_reported_once(tx: Map<Seq<char>, Seq<char>>, html: Seq<char>)
    requires
        page_version(html) is Some,
    ensures
        page_outcome(page_outcome(tx, html).0, html) == (
            page_outcome(tx, html).0,
            Some(None::<(Seq<char>, Seq<char>)>),
        ),
{
}

impl ScriptHookV {
    /// The URL of the download page.
    pub fn url(&self) -> (r: &'static str)
        ensures
            r@ == page_url(),
    {
        "http://www.dev-c.com/gtav/scripthookv/"
    }

    /// Looks for a new version on the download page `html`.
    pub fn check_page(&self, html: &str, tx: &mut Transaction) -> (r: PageCheck)
        requires
            page_searchable(html@),
        ensures
            (final(tx)@, page_check_view(r)) == page_outcome(old(tx)@, html@),
    {
        let version = match extract_version(html) {
            Some(v) => v,
            None => {
                return PageCheck::NoVersion;
            },
        };
        let key = "scripthookv_version";
        let prev: Option<String> = match tx.get(key) {
            Some(p) => Some(to_owned_string(p)),
            None => None,
        };
        match &prev {
            Some(p) => {
                if *p == version {
                    return PageCheck::Unchanged;
                }
            },
            None => {},
        }
        tx.set(key, version.as_str());
        let (title, body) = match prev {
            Some(old) => {
                let mut title = to_owned_string("ScriptHookV updated to ");
                title.append(version.as_str());
                let mut body = to_owned_string("A new version of ScriptHookV is available: ");
                body.append(version.as_str());
                body.append("\n\nPrevious version: ");
                body.append(old.as_str());
                body.append("\n\n");
                body.append(self.url());
                (title, body)
            },
            None => {
                let mut title = to_owned_string("ScriptHookV ");
                title.append(version.as_str());
                title.append(" detected");
                let mut body = to_owned_string("Initial ScriptHookV version detected: ");
                body.append(version.as_str());
                body.append("\n\n");
                body.append(self.url());
                (title, body)
            },
        };
        PageCheck::Changed(Notification { title, body })
    }
}

} // verus!
