//! The grammar of block headers: `block`, white space, the block's name,
//! an optional `requires[...]` list, and `{`; and the grammar of the items
//! of such a list: a block name with an optional `[names]`.
//!
//! Each is read the way the leftmost-first regular expressions of the
//! language's definition read it:
//! `block\s+([A-Za-z_][A-Za-z0-9_]*)\s*(?:requires\s*\[(.*?)\])?\s*\{` for a
//! header and `([A-Za-z_][A-Za-z0-9_]*)(?:\s*\[\s*(.*?)\s*\])?` for an item,
//! `\s` being Unicode white space.
use vstd::prelude::*;

use crate::text::{is_white_space, lemma_skip_forward, skip_space_forward, white_space};

verus! {

pub open spec fn is_word_start(c: char) -> bool {
    ('a' <= c <= 'z') || ('A' <= c <= 'Z') || c == '_'
}

pub open spec fn is_word_char(c: char) -> bool {
    is_word_start(c) || ('0' <= c <= '9')
}

/// The end of the run of name characters of `t` that starts at `i`.
pub open spec fn word_end(t: Seq<char>, i: int) -> int
    decreases t.len() - i,
{
    if 0 <= i < t.len() && is_word_char(t[i]) {
        word_end(t, i + 1)
    } else {
        i
    }
}

/// Whether `w` stands in `t` at `i`.
pub open spec fn has_at(t: Seq<char>, i: int, w: Seq<char>) -> bool {
    0 <= i && i + w.len() <= t.len() && t.subrange(i, i + w.len()) == w
}

/// Whether `.` matches `c`: any character, or any but a line break.
pub open spec fn dot(c: char, dotall: bool) -> bool {
    dotall || c != '\n'
}

/// The `]` that closes a `requires[...]` list whose text starts at `k`:
/// the first `]` after which, past white space, a `{` follows; every
/// character before it must match `.`.
pub open spec fn list_close(t: Seq<char>, k: int, dotall: bool) -> Option<int>
    decreases t.len() - k,
{
    if k < 0 || k >= t.len() {
        None
    } else if t[k] == ']' && skip_space_forward(t, k + 1) < t.len() && t[skip_space_forward(t, k + 1)] == '{' {
        Some(k)
    } else if dot(t[k], dotall) {
        list_close(t, k + 1, dotall)
    } else {
        None
    }
}

pub open spec fn requires_word() -> Seq<char> {
    seq!['r', 'e', 'q', 'u', 'i', 'r', 'e', 's']
}

pub open spec fn block_word() -> Seq<char> {
    seq!['b', 'l', 'o', 'c', 'k']
}

/// A `requires[...]` list at `c`: where its text starts and where its `]`
/// stands.
pub open spec fn requires_list(t: Seq<char>, c: int, dotall: bool) -> Option<(int, int)> {
    if has_at(t, c, requires_word()) {
        let i = skip_space_forward(t, c + 8);
        if 0 <= i < t.len() && t[i] == '[' {
            match list_close(t, i + 1, dotall) {
                Some(e) => Some((i + 1, e)),
                None => None,
            }
        } else {
            None
        }
    } else {
        None
    }
}

/// The rest of a header whose name ends at `b`: the end of the header and
/// the bounds of its list, if it has one.
pub open spec fn header_rest(t: Seq<char>, b: int, dotall: bool) -> Option<(int, Option<(int, int)>)> {
    let c = skip_space_forward(t, b);
    match requires_list(t, c, dotall) {
        Some((x, e)) => Some((skip_space_forward(t, e + 1) + 1, Some((x, e)))),
        None => if 0 <= c < t.len() && t[c] == '{' {
            Some((c + 1, None))
        } else {
            None
        },
    }
}

/// The longest name, from `a` to at most `b`, that the rest of a header
/// follows; with the end of the name and that rest.
pub open spec fn header_try(t: Seq<char>, a: int, b: int, dotall: bool) -> Option<(int, (int, Option<(int, int)>))>
    decreases b - a,
{
    if b <= a {
        None
    } else {
        match header_rest(t, b, dotall) {
            Some(r) => Some((b, r)),
            None => header_try(t, a, b - 1, dotall),
        }
    }
}

/// The header that starts at `p`: its name, the text of its list and its
/// end.
pub open spec fn header_match_at(t: Seq<char>, p: int, dotall: bool) -> Option<(Seq<char>, Option<Seq<char>>, int)> {
    if has_at(t, p, block_word()) {
        let a = skip_space_forward(t, p + 5);
        if p + 5 < a < t.len() && is_word_start(t[a]) {
            match header_try(t, a, word_end(t, a + 1), dotall) {
                Some((b, (end, l))) => Some(
                    (
                        t.subrange(a, b),
                        match l {
                            Some((x, e)) => Some(t.subrange(x, e)),
                            None => None,
                        },
                        end,
                    ),
                ),
                None => None,
            }
        } else {
            None
        }
    } else {
        None
    }
}

pub proof fn lemma_word_end(t: Seq<char>, i: int)
    requires
        0 <= i <= t.len(),
    ensures
        i <= word_end(t, i) <= t.len(),
        forall|j: int| i <= j < word_end(t, i) ==> is_word_char(#[trigger] t[j]),
    decreases t.len() - i,
{
    if i < t.len() && is_word_char(t[i]) {
        lemma_word_end(t, i + 1);
    }
}

pub proof fn lemma_list_close(t: Seq<char>, k: int, dotall: bool)
    requires
        0 <= k,
    ensures
        list_close(t, k, dotall) matches Some(e) ==> k <= e && skip_space_forward(t, e + 1) < t.len(),
    decreases t.len() - k,
{
    if 0 <= k < t.len() && !(t[k] == ']' && skip_space_forward(t, k + 1) < t.len() && t[skip_space_forward(t, k + 1)] == '{') && dot(t[k], dotall) {
        lemma_list_close(t, k + 1, dotall);
    }
}

pub proof fn lemma_header_rest(t: Seq<char>, b: int, dotall: bool)
    requires
        0 <= b <= t.len(),
    ensures
        header_rest(t, b, dotall) matches Some((end, _)) ==> b < end <= t.len(),
{
    lemma_skip_forward(t, b);
    let c = skip_space_forward(t, b);
    if has_at(t, c, requires_word()) {
        lemma_skip_forward(t, c + 8);
        let i = skip_space_forward(t, c + 8);
        if 0 <= i < t.len() && t[i] == '[' {
            lemma_list_close(t, i + 1, dotall);
            if let Some(e) = list_close(t, i + 1, dotall) {
                lemma_skip_forward(t, e + 1);
            }
        }
    }
}

pub proof fn lemma_header_try(t: Seq<char>, a: int, b: int, dotall: bool)
    requires
        0 <= a,
        b <= t.len(),
    ensures
        header_try(t, a, b, dotall) matches Some((n, (end, _))) ==> a < n <= b && n < end <= t.len(),
    decreases b - a,
{
    if b > a {
        lemma_header_rest(t, b, dotall);
        lemma_header_try(t, a, b - 1, dotall);
    }
}

/// A header ends after it starts, inside the text.
pub proof fn lemma_header_match_at(t: Seq<char>, p: int, dotall: bool)
    requires
        0 <= p,
    ensures
        header_match_at(t, p, dotall) matches Some((_, _, end)) ==> p < end <= t.len(),
{
    if has_at(t, p, block_word()) {
        lemma_skip_forward(t, p + 5);
        let a = skip_space_forward(t, p + 5);
        if p + 5 < a < t.len() && is_word_start(t[a]) {
            lemma_word_end(t, a + 1);
            lemma_header_try(t, a, word_end(t, a + 1), dotall);
        }
    }
}

/// The positions where the headers found by a left-to-right search from
/// `q` start, the search going on after each header it finds (`.` not
/// matching a line break).
pub open spec fn header_starts_from(t: Seq<char>, q: int) -> Seq<int>
    decreases t.len() - q,
{
    if q < 0 || q >= t.len() {
        Seq::empty()
    } else {
        match header_match_at(t, q, false) {
            Some((_, _, end)) => {
                proof {
                    lemma_header_match_at(t, q, false);
                }
                seq![q] + header_starts_from(t, end)
            },
            None => header_starts_from(t, q + 1),
        }
    }
}

/// The headers found from `q` on start at increasing positions at or after
/// `q`, inside the text.
pub proof fn lemma_header_starts(t: Seq<char>, q: int)
    requires
        0 <= q,
    ensures
        forall|i: int| 0 <= i < header_starts_from(t, q).len() ==> q <= #[trigger] header_starts_from(t, q)[i] < t.len(),
        forall|i: int, j: int|
            0 <= i < j < header_starts_from(t, q).len() ==> header_starts_from(t, q)[i] < header_starts_from(t, q)[j],
    decreases t.len() - q,
{
    if q < t.len() {
        match header_match_at(t, q, false) {
            Some((_, _, end)) => {
                lemma_header_match_at(t, q, false);
                lemma_header_starts(t, end);
                let rest = header_starts_from(t, end);
                let all = seq![q] + rest;
                assert(header_starts_from(t, q) == all);
                assert forall|i: int| 0 <= i < all.len() implies q <= #[trigger] all[i] < t.len() by {
                    if i > 0 {
                        assert(all[i] == rest[i - 1]);
                    }
                }
                assert forall|i: int, j: int| 0 <= i < j < all.len() implies all[i] < all[j] by {
                    assert(all[j] == rest[j - 1]);
                    if i > 0 {
                        assert(all[i] == rest[i - 1]);
                    }
                }
            },
            None => {
                lemma_header_starts(t, q + 1);
                assert(header_starts_from(t, q) == header_starts_from(t, q + 1));
            },
        }
    }
}

/// The `]` that closes the list of an item whose text starts at `k` or
/// earlier: the first position from `k` on after which, past white space,
/// a `]` stands; no line break may come before it.
pub open spec fn item_close(t: Seq<char>, k: int) -> Option<int>
    decreases t.len() + 1 - k,
{
    if k < 0 || k > t.len() {
        None
    } else {
        let j = skip_space_forward(t, k);
        if 0 <= j < t.len() && t[j] == ']' {
            Some(k)
        } else if k < t.len() && t[k] != '\n' {
            item_close(t, k + 1)
        } else {
            None
        }
    }
}

/// The list of an item whose name ends at `b`: where its text starts and
/// ends, and where the item ends.
pub open spec fn item_list(t: Seq<char>, b: int) -> Option<(int, int, int)> {
    let c = skip_space_forward(t, b);
    if 0 <= c < t.len() && t[c] == '[' {
        let s = skip_space_forward(t, c + 1);
        match item_close(t, s) {
            Some(x) => Some((s, x, skip_space_forward(t, x) + 1)),
            None => None,
        }
    } else {
        None
    }
}

pub proof fn lemma_item_close(t: Seq<char>, k: int)
    requires
        0 <= k,
    ensures
        item_close(t, k) matches Some(x) ==> k <= x && skip_space_forward(t, x) < t.len(),
    decreases t.len() + 1 - k,
{
    if k <= t.len() {
        lemma_skip_forward(t, k);
        let j = skip_space_forward(t, k);
        if !(0 <= j < t.len() && t[j] == ']') && k < t.len() && t[k] != '\n' {
            lemma_item_close(t, k + 1);
        }
    }
}

pub proof fn lemma_item_list(t: Seq<char>, b: int)
    requires
        0 <= b <= t.len(),
    ensures
        item_list(t, b) matches Some((s, x, end)) ==> b < s <= x < end <= t.len(),
{
    lemma_skip_forward(t, b);
    let c = skip_space_forward(t, b);
    if 0 <= c < t.len() && t[c] == '[' {
        lemma_skip_forward(t, c + 1);
        let s = skip_space_forward(t, c + 1);
        lemma_item_close(t, s);
        if let Some(x) = item_close(t, s) {
            lemma_skip_forward(t, x);
        }
    }
}

/// The items found by a left-to-right search from `q`: each name with the
/// text of its list, if it has one.
pub open spec fn items_from(t: Seq<char>, q: int) -> Seq<(Seq<char>, Option<Seq<char>>)>
    decreases t.len() - q,
{
    if q < 0 || q >= t.len() {
        Seq::empty()
    } else if is_word_start(t[q]) {
        let b = word_end(t, q + 1);
        proof {
            lemma_word_end(t, q + 1);
            lemma_item_list(t, b);
        }
        match item_list(t, b) {
            Some((s, x, end)) => seq![(t.subrange(q, b), Some(t.subrange(s, x)))] + items_from(t, end),
            None => seq![(t.subrange(q, b), None)] + items_from(t, b),
        }
    } else {
        items_from(t, q + 1)
    }
}

// ---------------------------------------------------------------------
// Reading the grammar
// ---------------------------------------------------------------------
fn skip_spaces(t: &Vec<char>, i: usize) -> (r: usize)
    requires
        i <= t@.len(),
    ensures
        r == skip_space_forward(t@, i as int),
        i <= r <= t@.len(),
{
    proof {
        lemma_skip_forward(t@, i as int);
    }
    let mut k = i;
    while k < t.len() && white_space(t[k])
        invariant
            i <= k <= t@.len(),
            skip_space_forward(t@, i as int) == skip_space_forward(t@, k as int),
        decreases t@.len() - k,
    {
        k = k + 1;
    }
    k
}

fn word_char(c: char) -> (r: bool)
    ensures
        r == is_word_char(c),
{
    ('a' <= c && c <= 'z') || ('A' <= c && c <= 'Z') || c == '_' || ('0' <= c && c <= '9')
}

fn word_start(c: char) -> (r: bool)
    ensures
        r == is_word_start(c),
{
    ('a' <= c && c <= 'z') || ('A' <= c && c <= 'Z') || c == '_'
}

fn word_end_at(t: &Vec<char>, i: usize) -> (r: usize)
    requires
        i <= t@.len(),
    ensures
        r == word_end(t@, i as int),
        i <= r <= t@.len(),
{
    proof {
        lemma_word_end(t@, i as int);
    }
    let mut k = i;
    while k < t.len() && word_char(t[k])
        invariant
            i <= k <= t@.len(),
            word_end(t@, i as int) == word_end(t@, k as int),
        decreases t@.len() - k,
    {
        k = k + 1;
    }
    k
}

fn word_at(t: &Vec<char>, i: usize, w: &str) -> (r: bool)
    ensures
        r == has_at(t@, i as int, w@),
{
    let n = t.len();
    let wc = crate::text::chars_of(w);
    if i > n || wc.len() > t.len() - i {
        return false;
    }
    let mut k: usize = 0;
    while k < wc.len()
        invariant
            k <= wc@.len(),
            wc@ == w@,
            n == t@.len(),
            i + wc@.len() <= t@.len(),
            t@.subrange(i as int, i + k) == wc@.take(k as int),
        decreases wc@.len() - k,
    {
        assert(i + k < t@.len());
        if t[i + k] != wc[k] {
            assert(t@.subrange(i as int, i + wc@.len())[k as int] != w@[k as int]);
            return false;
        }
        k = k + 1;
        assert(t@.subrange(i as int, i + k) =~= wc@.take(k as int));
    }
    assert(wc@.take(wc@.len() as int) =~= wc@);
    true
}

fn find_list_close(t: &Vec<char>, k: usize, dotall: bool) -> (r: Option<usize>)
    requires
        k <= t@.len(),
    ensures
        match r {
            Some(e) => list_close(t@, k as int, dotall) == Some(e as int) && e < t@.len(),
            None => list_close(t@, k as int, dotall) is None,
        },
{
    let mut i = k;
    while i < t.len()
        invariant
            k <= i <= t@.len(),
            list_close(t@, k as int, dotall) == list_close(t@, i as int, dotall),
        decreases t@.len() - i,
    {
        if t[i] == ']' {
            let j = skip_spaces(t, i + 1);
            if j < t.len() && t[j] == '{' {
                return Some(i);
            }
        }
        if !dotall && t[i] == '\n' {
            return None;
        }
        i = i + 1;
    }
    None
}

fn find_requires_list(t: &Vec<char>, c: usize, dotall: bool) -> (r: Option<(usize, usize)>)
    requires
        c <= t@.len(),
    ensures
        match r {
            Some((x, e)) => requires_list(t@, c as int, dotall) == Some((x as int, e as int)) && x <= e < t@.len(),
            None => requires_list(t@, c as int, dotall) is None,
        },
{
    proof {
        reveal_strlit("requires");
        assert("requires"@ =~= requires_word());
    }
    if !word_at(t, c, "requires") {
        return None;
    }
    let n = t.len();
    assert(c + 8 <= n);
    let i = skip_spaces(t, c + 8);
    if i < t.len() && t[i] == '[' {
        proof {
            lemma_list_close(t@, i + 1, dotall);
        }
        match find_list_close(t, i + 1, dotall) {
            Some(e) => Some((i + 1, e)),
            None => None,
        }
    } else {
        None
    }
}

fn find_header_rest(t: &Vec<char>, b: usize, dotall: bool) -> (r: Option<(usize, Option<(usize, usize)>)>)
    requires
        b <= t@.len(),
    ensures
        match r {
            Some((end, l)) => header_rest(t@, b as int, dotall) == Some(
                (
                    end as int,
                    match l {
                        Some((x, e)) => Some((x as int, e as int)),
                        None => None,
                    },
                ),
            ) && end <= t@.len() && (l matches Some((x, e)) ==> x <= e <= t@.len()),
            None => header_rest(t@, b as int, dotall) is None,
        },
{
    let n = t.len();
    let c = skip_spaces(t, b);
    match find_requires_list(t, c, dotall) {
        Some((x, e)) => {
            proof {
                assert(list_close(t@, x as int, dotall) == Some(e as int));
                lemma_list_close(t@, x as int, dotall);
            }
            let end = skip_spaces(t, e + 1);
            Some((end + 1, Some((x, e))))
        },
        None => {
            if c < t.len() && t[c] == '{' {
                Some((c + 1, None))
            } else {
                None
            }
        },
    }
}

/// The header that starts at `p` (see `header_match_at`): its name, its
/// list and its end.
pub fn header_at(t: &Vec<char>, p: usize, dotall: bool) -> (r: Option<(Vec<char>, Option<Vec<char>>, usize)>)
    ensures
        match r {
            Some((id, l, end)) => header_match_at(t@, p as int, dotall) == Some(
                (
                    id@,
                    match l {
                        Some(v) => Some(v@),
                        None => None,
                    },
                    end as int,
                ),
            ) && end <= t@.len(),
            None => header_match_at(t@, p as int, dotall) is None,
        },
{
    proof {
        reveal_strlit("block");
        assert("block"@ =~= block_word());
    }
    if !word_at(t, p, "block") {
        return None;
    }
    let n = t.len();
    assert(p + 5 <= n);
    let a = skip_spaces(t, p + 5);
    if !(p + 5 < a && a < t.len() && word_start(t[a])) {
        return None;
    }
    let top = word_end_at(t, a + 1);
    let mut b = top;
    while b > a
        invariant
            a < t@.len(),
            has_at(t@, p as int, block_word()),
            a as int == skip_space_forward(t@, p + 5),
            p + 5 < a,
            is_word_start(t@[a as int]),
            top as int == word_end(t@, a + 1),
            b <= top <= t@.len(),
            header_try(t@, a as int, top as int, dotall) == header_try(t@, a as int, b as int, dotall),
        decreases b,
    {
        match find_header_rest(t, b, dotall) {
            Some((end, l)) => {
                assert(header_try(t@, a as int, b as int, dotall) == Some((b as int, header_rest(t@, b as int, dotall).unwrap())));
                let id = crate::text::sub_chars(t, a, b);
                let list = match l {
                    Some((x, e)) => Some(crate::text::sub_chars(t, x, e)),
                    None => None,
                };
                proof {
                    assert(has_at(t@, p as int, block_word()));
                    assert(a as int == skip_space_forward(t@, p + 5));
                    assert(header_try(t@, a as int, word_end(t@, a + 1), dotall) == Some((b as int, header_rest(t@, b as int, dotall).unwrap())));
                    assert(id@ == t@.subrange(a as int, b as int));
                }
                return Some((id, list, end));
            },
            None => {},
        }
        b = b - 1;
    }
    None
}

/// The positions where headers start (see `header_starts_from`).
pub fn header_starts(t: &Vec<char>) -> (r: Vec<usize>)
    ensures
        r@.map_values(|x: usize| x as int) == header_starts_from(t@, 0),
{
    let mut out: Vec<usize> = Vec::new();
    let mut q: usize = 0;
    while q < t.len()
        invariant
            q <= t@.len(),
            out@.map_values(|x: usize| x as int) + header_starts_from(t@, q as int) == header_starts_from(t@, 0),
        decreases t@.len() - q,
    {
        let ghost before = out@.map_values(|x: usize| x as int);
        match header_at(t, q, false) {
            Some((_, _, end)) => {
                proof {
                    lemma_header_match_at(t@, q as int, false);
                }
                out.push(q);
                assert(out@.map_values(|x: usize| x as int) =~= before.push(q as int));
                assert(before + header_starts_from(t@, q as int) =~= before.push(q as int) + header_starts_from(t@, end as int));
                q = end;
            },
            None => {
                q = q + 1;
            },
        }
    }
    assert(out@.map_values(|x: usize| x as int) + Seq::<int>::empty() =~= out@.map_values(|x: usize| x as int));
    out
}

fn find_item_close(t: &Vec<char>, k: usize) -> (r: Option<usize>)
    requires
        k <= t@.len(),
    ensures
        match r {
            Some(x) => item_close(t@, k as int) == Some(x as int) && x <= t@.len(),
            None => item_close(t@, k as int) is None,
        },
{
    let mut i = k;
    loop
        invariant
            k <= i <= t@.len(),
            item_close(t@, k as int) == item_close(t@, i as int),
        decreases t@.len() - i,
    {
        let j = skip_spaces(t, i);
        if j < t.len() && t[j] == ']' {
            return Some(i);
        }
        if i < t.len() && t[i] != '\n' {
            i = i + 1;
        } else {
            return None;
        }
    }
}

/// An item read from a list, seen as character sequences.
pub open spec fn item_view(x: (Vec<char>, Option<Vec<char>>)) -> (Seq<char>, Option<Seq<char>>) {
    (
        x.0@,
        match x.1 {
            Some(v) => Some(v@),
            None => None,
        },
    )
}

fn find_item_list(t: &Vec<char>, b: usize) -> (r: Option<(usize, usize, usize)>)
    requires
        b <= t@.len(),
    ensures
        match r {
            Some((s, x, end)) => item_list(t@, b as int) == Some((s as int, x as int, end as int)) && s <= x <= t@.len() && end <= t@.len(),
            None => item_list(t@, b as int) is None,
        },
{
    proof {
        lemma_item_list(t@, b as int);
    }
    let c = skip_spaces(t, b);
    if c < t.len() && t[c] == '[' {
        let s = skip_spaces(t, c + 1);
        match find_item_close(t, s) {
            Some(x) => {
                proof {
                    lemma_item_close(t@, s as int);
                }
                let end = skip_spaces(t, x) + 1;
                Some((s, x, end))
            },
            None => None,
        }
    } else {
        None
    }
}

/// The items of a requirement list (see `items_from`): each name with the
/// text of its list, if it has one.
pub fn list_items(t: &Vec<char>) -> (r: Vec<(Vec<char>, Option<Vec<char>>)>)
    ensures
        r@.map_values(|x: (Vec<char>, Option<Vec<char>>)| item_view(x)) == items_from(t@, 0),
{
    let mut out: Vec<(Vec<char>, Option<Vec<char>>)> = Vec::new();
    let mut q: usize = 0;
    assert(out@.map_values(|x: (Vec<char>, Option<Vec<char>>)| item_view(x)) =~= Seq::<(Seq<char>, Option<Seq<char>>)>::empty());
    while q < t.len()
        invariant
            q <= t@.len(),
            out@.map_values(|x: (Vec<char>, Option<Vec<char>>)| item_view(x)) + items_from(t@, q as int) == items_from(t@, 0),
        decreases t@.len() - q,
    {
        let ghost before = out@.map_values(|x: (Vec<char>, Option<Vec<char>>)| item_view(x));
        if word_start(t[q]) {
            let b = word_end_at(t, q + 1);
            proof {
                lemma_item_list(t@, b as int);
            }
            let name = crate::text::sub_chars(t, q, b);
            let (list, next) = match find_item_list(t, b) {
                Some((s, x, end)) => (Some(crate::text::sub_chars(t, s, x)), end),
                None => (None, b),
            };
            let ghost item = item_view((name, list));
            out.push((name, list));
            proof {
                assert(out@.map_values(|x: (Vec<char>, Option<Vec<char>>)| item_view(x)) =~= before.push(item));
                assert(is_word_start(t@[q as int]));
                assert(b as int == word_end(t@, q + 1));
                assert(name@ == t@.subrange(q as int, b as int));
                assert(item.0 == t@.subrange(q as int, b as int));
                assert(items_from(t@, q as int) == seq![item] + items_from(t@, next as int));
                assert(before + items_from(t@, q as int) =~= before.push(item) + items_from(t@, next as int));
            }
            q = next;
        } else {
            q = q + 1;
        }
    }
    assert(out@.map_values(|x: (Vec<char>, Option<Vec<char>>)| item_view(x)) + Seq::<(Seq<char>, Option<Seq<char>>)>::empty() =~= out@.map_values(|x: (Vec<char>, Option<Vec<char>>)| item_view(x)));
    out
}

} // verus!
