//! Blocks: a program is a sequence of `block name requires[...] { ... }`
//! sections. Each block has an id, the blocks (and their variables) it
//! requires, and its own tokens.
use std::collections::VecDeque;
use vstd::prelude::*;

use crate::text::{
    chars_of, str_equals, lemma_split_on_nonempty, split_on, string_from_chars, sub_chars, trim,
    trim_chars,
};
use crate::header::{
    header_at, header_match_at, header_starts, header_starts_from, item_view, items_from,
    lemma_header_starts, list_items,
};
use crate::tokenizer::{tokenize, tokenize_spec, tokens_view, Token, TokenView};

verus! {

/// A block of the program: its id, what it requires (each required block's
/// id with the names of the variables taken from it) and its tokens.
#[derive(Debug, Clone)]
pub struct TokenBlock {
    pub requirements: Vec<(String, Vec<String>)>,
    pub id: String,
    pub tokens: VecDeque<Token>,
}

impl TokenBlock {
    pub fn new(id: String, requirements: Vec<(String, Vec<String>)>, tokens: VecDeque<Token>) -> (b: Self)
        ensures
            b.id == id,
            b.requirements == requirements,
            b.tokens == tokens,
    {
        TokenBlock { requirements, id, tokens }
    }
}

/// Two blocks are the same block when their ids are equal.
impl PartialEq for TokenBlock {
    fn eq(&self, other: &Self) -> (r: bool) {
        self.id == other.id
    }
}

impl vstd::std_specs::cmp::PartialEqSpecImpl for TokenBlock {
    open spec fn obeys_eq_spec() -> bool {
        true
    }

    open spec fn eq_spec(&self, other: &Self) -> bool {
        self.id@ == other.id@
    }
}

/// A requirement: a block id with the variable names taken from it.
pub open spec fn requirement_view(r: (String, Vec<String>)) -> (Seq<char>, Seq<Seq<char>>) {
    (r.0@, r.1@.map_values(|s: String| s@))
}

pub open spec fn requirements_view(rs: Seq<(String, Vec<String>)>) -> Seq<(Seq<char>, Seq<Seq<char>>)> {
    rs.map_values(|r: (String, Vec<String>)| requirement_view(r))
}

// ---------------------------------------------------------------------
// Splitting a program into blocks
// ---------------------------------------------------------------------
/// The character positions where a block header starts in `text`, found
/// from left to right, the search going on after each header (see
/// `header_starts_from`).
pub open spec fn block_header_starts(text: Seq<char>) -> Seq<int> {
    header_starts_from(text, 0)
}

/// The positions where block headers start: in order, each inside the
/// text.
fn find_block_headers(text: &str) -> (r: Vec<usize>)
    ensures
        r@.map_values(|x: usize| x as int) == block_header_starts(text@),
        forall|i: int, j: int| 0 <= i < j < r@.len() ==> r@[i] < r@[j],
        forall|i: int| 0 <= i < r@.len() ==> r@[i] < text@.len(),
{
    let chars = chars_of(text);
    let r = header_starts(&chars);
    proof {
        lemma_header_starts(text@, 0);
        let v = r@.map_values(|x: usize| x as int);
        assert forall|i: int| 0 <= i < r@.len() implies r@[i] < text@.len() by {
            assert(v[i] == r@[i] as int);
            assert(0 <= header_starts_from(text@, 0)[i] < text@.len());
        }
        assert forall|i: int, j: int| 0 <= i < j < r@.len() implies r@[i] < r@[j] by {
            assert(v[i] == r@[i] as int);
            assert(v[j] == r@[j] as int);
        }
    }
    r
}

/// The pieces of `text` cut at the positions `starts[k..]`, the last cut
/// having been made at `last`: a piece between two cuts (when not empty),
/// then the rest after the last cut (when not empty).
pub open spec fn pieces_from(text: Seq<char>, starts: Seq<int>, k: int, last: int) -> Seq<Seq<char>>
    decreases starts.len() - k,
{
    if k < 0 || k >= starts.len() {
        if last < text.len() {
            seq![text.subrange(last, text.len() as int)]
        } else {
            Seq::empty()
        }
    } else {
        let start = starts[k];
        let rest = pieces_from(text, starts, k + 1, start);
        if start > last {
            seq![text.subrange(last, start)] + rest
        } else {
            rest
        }
    }
}

/// The blocks of a program text: the text cut where each block header
/// starts.
pub open spec fn split_blocks_spec(text: Seq<char>) -> Seq<Seq<char>> {
    pieces_from(text, block_header_starts(text), 0, 0)
}

/// Joining the pieces cut at increasing positions inside the text, from
/// the cut at `last` on, gives back the text from `last` on.
proof fn lemma_pieces_concat(text: Seq<char>, starts: Seq<int>, k: int, last: int)
    requires
        0 <= k <= starts.len(),
        0 <= last <= text.len(),
        forall|i: int, j: int| 0 <= i < j < starts.len() ==> starts[i] < starts[j],
        forall|i: int| 0 <= i < starts.len() ==> 0 <= #[trigger] starts[i] < text.len(),
        k < starts.len() ==> last <= starts[k],
    ensures
        pieces_from(text, starts, k, last).flatten() == text.subrange(last, text.len() as int),
    decreases starts.len() - k,
{
    if k >= starts.len() {
        if last < text.len() {
            let p = seq![text.subrange(last, text.len() as int)];
            p.lemma_flatten_one_element();
        } else {
            assert(text.subrange(last, text.len() as int) =~= Seq::<char>::empty());
        }
    } else {
        let start = starts[k];
        lemma_pieces_concat(text, starts, k + 1, start);
        let rest = pieces_from(text, starts, k + 1, start);
        if start > last {
            let p = seq![text.subrange(last, start)] + rest;
            assert(p.drop_first() =~= rest);
            assert(p.flatten() =~= text.subrange(last, text.len() as int));
        }
    }
}

/// No piece cut at increasing positions inside the text is empty.
proof fn lemma_pieces_nonempty(text: Seq<char>, starts: Seq<int>, k: int, last: int)
    requires
        0 <= k <= starts.len(),
        0 <= last <= text.len(),
        forall|i: int, j: int| 0 <= i < j < starts.len() ==> starts[i] < starts[j],
        forall|i: int| 0 <= i < starts.len() ==> 0 <= #[trigger] starts[i] < text.len(),
        k < starts.len() ==> last <= starts[k],
    ensures
        forall|i: int| 0 <= i < pieces_from(text, starts, k, last).len() ==> #[trigger] pieces_from(text, starts, k, last)[i].len() > 0,
    decreases starts.len() - k,
{
    if k < starts.len() {
        let start = starts[k];
        lemma_pieces_nonempty(text, starts, k + 1, start);
        let rest = pieces_from(text, starts, k + 1, start);
        if start > last {
            let p = seq![text.subrange(last, start)] + rest;
            assert forall|i: int| 0 <= i < p.len() implies #[trigger] p[i].len() > 0 by {
                if i > 0 {
                    assert(p[i] == rest[i - 1]);
                }
            }
        }
    }
}

/// Cuts a program into blocks: a new piece starts wherever a block header
/// starts; text before the first header is a piece of its own.
pub fn split_blocks(text: &str) -> (r: Vec<String>)
    ensures
        r@.map_values(|s: String| s@) == split_blocks_spec(text@),
        r@.map_values(|s: String| s@).flatten() == text@,
        forall|i: int| 0 <= i < r@.len() ==> #[trigger] r@[i]@.len() > 0,
        text@.len() == 0 ==> r@.len() == 0,
{
    let starts = find_block_headers(text);
    let chars = chars_of(text);
    let ghost st = starts@.map_values(|x: usize| x as int);
    proof {
        lemma_pieces_concat(text@, st, 0, 0);
        lemma_pieces_nonempty(text@, st, 0, 0);
        assert(text@.subrange(0, text@.len() as int) =~= text@);
    }
    let mut results: Vec<String> = Vec::new();
    let mut last_end: usize = 0;
    let mut k: usize = 0;
    assert(results@.map_values(|s: String| s@) =~= Seq::<Seq<char>>::empty());
    while k < starts.len()
        invariant
            k <= starts@.len(),
            chars@ == text@,
            st == block_header_starts(text@),
            st == starts@.map_values(|x: usize| x as int),
            forall|i: int| 0 <= i < starts@.len() ==> starts@[i] < text@.len(),
            last_end <= text@.len(),
            results@.map_values(|s: String| s@) + pieces_from(text@, st, k as int, last_end as int)
                == split_blocks_spec(text@),
        decreases starts@.len() - k,
    {
        let start = starts[k];
        let ghost before = results@.map_values(|s: String| s@);
        if start > last_end {
            let piece = string_from_chars(&sub_chars(&chars, last_end, start));
            results.push(piece);
            assert(results@.map_values(|s: String| s@) =~= before.push(
                text@.subrange(last_end as int, start as int),
            ));
            assert(results@.map_values(|s: String| s@) + pieces_from(
                text@,
                st,
                k + 1,
                start as int,
            ) =~= before + pieces_from(text@, st, k as int, last_end as int));
        }
        last_end = start;
        k = k + 1;
    }
    let ghost before = results@.map_values(|s: String| s@);
    if last_end < chars.len() {
        let piece = string_from_chars(&sub_chars(&chars, last_end, chars.len()));
        results.push(piece);
        assert(results@.map_values(|s: String| s@) =~= before.push(
            text@.subrange(last_end as int, text@.len() as int),
        ));
    } else {
        assert(before + Seq::<Seq<char>>::empty() =~= before);
    }
    proof {
        let v = results@.map_values(|s: String| s@);
        assert(v == split_blocks_spec(text@));
        assert(v == pieces_from(text@, st, 0, 0));
        assert forall|i: int| 0 <= i < results@.len() implies #[trigger] results@[i]@.len() > 0 by {
            assert(v[i] == results@[i]@);
            assert(pieces_from(text@, st, 0, 0)[i].len() > 0);
        }
        if text@.len() == 0 {
            assert(st.len() == 0);
        }
    }
    results
}

// ---------------------------------------------------------------------
// Reading a block
// ---------------------------------------------------------------------
/// Why a piece of text is not a block.
#[derive(PartialEq, Eq, Structural, Debug, Clone, Copy)]
pub enum BlockError {
    /// The text does not start with a block header.
    InvalidFormat,
    /// The `{` that opens the block has no matching `}`.
    UnmatchedBraces,
}

pub open spec fn opt_view(o: Option<String>) -> Option<Seq<char>> {
    match o {
        Some(s) => Some(s@),
        None => None,
    }
}

/// The block header at the start of `text`: the block id, the text
/// between the brackets of `requires[...]` when there is one, and the
/// position just after the `{` (see `header_match_at`; here `.` matches
/// any character).
pub open spec fn block_header(text: Seq<char>) -> Option<(Seq<char>, Option<Seq<char>>, int)> {
    header_match_at(text, 0, true)
}

/// The requirement items of a `requires[...]` list: each required block id
/// with the text between its brackets, when it has any (see `items_from`).
pub open spec fn requirement_items(list: Seq<char>) -> Seq<(Seq<char>, Option<Seq<char>>)> {
    items_from(list, 0)
}

/// Reads the block header at the start of `text` (see `block_header`).
fn match_block_header(text: &str) -> (r: Option<(String, Option<String>, usize)>)
    ensures
        match r {
            Some((id, list, end)) => block_header(text@) == Some((id@, opt_view(list), end as int))
                && end <= text@.len(),
            None => block_header(text@) is None,
        },
{
    let chars = chars_of(text);
    match header_at(&chars, 0, true) {
        Some((id, list, end)) => {
            let list = match list {
                Some(l) => Some(string_from_chars(&l)),
                None => None,
            };
            Some((string_from_chars(&id), list, end))
        },
        None => None,
    }
}

/// Reads the requirement items of a list (see `requirement_items`).
fn match_requirement_items(list: &str) -> (r: Vec<(String, Option<String>)>)
    ensures
        r@.map_values(|x: (String, Option<String>)| (x.0@, opt_view(x.1))) == requirement_items(
            list@,
        ),
{
    let chars = chars_of(list);
    let items = list_items(&chars);
    let ghost iv = items@.map_values(|x: (Vec<char>, Option<Vec<char>>)| item_view(x));
    let mut out: Vec<(String, Option<String>)> = Vec::new();
    let mut k: usize = 0;
    while k < items.len()
        invariant
            k <= items@.len(),
            iv == items@.map_values(|x: (Vec<char>, Option<Vec<char>>)| item_view(x)),
            out@.map_values(|x: (String, Option<String>)| (x.0@, opt_view(x.1))) == iv.take(k as int),
        decreases items@.len() - k,
    {
        let (name, l) = &items[k];
        let entry = (string_from_chars(name), match l {
            Some(v) => Some(string_from_chars(v)),
            None => None,
        });
        let ghost before = out@.map_values(|x: (String, Option<String>)| (x.0@, opt_view(x.1)));
        let ghost ev = (entry.0@, opt_view(entry.1));
        assert(iv[k as int] == item_view(items@[k as int]));
        assert(ev == iv[k as int]);
        out.push(entry);
        proof {
            assert(out@.map_values(|x: (String, Option<String>)| (x.0@, opt_view(x.1))) =~= before.push(ev));
            assert(out@.map_values(|x: (String, Option<String>)| (x.0@, opt_view(x.1))) =~= iv.take(k + 1));
        }
        k = k + 1;
    }
    assert(iv.take(items@.len() as int) =~= iv);
    out
}

/// The variable names of a list such as `a, b, c`: none when the list is
/// blank, else each comma-separated piece without surrounding white space.
pub open spec fn var_names(list: Seq<char>) -> Seq<Seq<char>> {
    if trim(list).len() == 0 {
        Seq::empty()
    } else {
        split_on(list, ',').map_values(|p: Seq<char>| trim(p))
    }
}

/// The position of the first requirement for the block `key`.
pub open spec fn requirement_index(reqs: Seq<(Seq<char>, Seq<Seq<char>>)>, key: Seq<char>) -> Option<int>
    decreases reqs.len(),
{
    if reqs.len() == 0 {
        None
    } else {
        match requirement_index(reqs.drop_last(), key) {
            Some(i) => Some(i),
            None => if reqs.last().0 == key {
                Some(reqs.len() - 1)
            } else {
                None
            },
        }
    }
}

/// Records that `key` is required with `names`, replacing what an earlier
/// requirement of the same block recorded.
pub open spec fn insert_requirement(reqs: Seq<(Seq<char>, Seq<Seq<char>>)>, key: Seq<char>, names: Seq<Seq<char>>) -> Seq<(Seq<char>, Seq<Seq<char>>)> {
    match requirement_index(reqs, key) {
        Some(i) => reqs.update(i, (key, names)),
        None => reqs.push((key, names)),
    }
}

/// The requirements that a list of requirement items records.
pub open spec fn requirements_from(items: Seq<(Seq<char>, Option<Seq<char>>)>) -> Seq<(Seq<char>, Seq<Seq<char>>)>
    decreases items.len(),
{
    if items.len() == 0 {
        Seq::empty()
    } else {
        let (key, list) = items.last();
        insert_requirement(
            requirements_from(items.drop_last()),
            key,
            var_names(
                match list {
                    Some(l) => l,
                    None => Seq::empty(),
                },
            ),
        )
    }
}

/// The position of the `}` that closes a block, the scan being at `i` with
/// `depth` braces open.
pub open spec fn closing_brace(s: Seq<char>, i: int, depth: nat) -> Option<int>
    decreases s.len() - i,
{
    if i < 0 || i >= s.len() {
        None
    } else if s[i] == '{' {
        closing_brace(s, i + 1, depth + 1)
    } else if s[i] == '}' {
        if depth <= 1 {
            Some(i)
        } else {
            closing_brace(s, i + 1, (depth - 1) as nat)
        }
    } else {
        closing_brace(s, i + 1, depth)
    }
}

/// The id, the requirements and the content (without surrounding white
/// space) of a block.
pub open spec fn block_meta_spec(text: Seq<char>) -> Result<(Seq<char>, Seq<(Seq<char>, Seq<Seq<char>>)>, Seq<char>), BlockError> {
    match block_header(text) {
        None => Err(BlockError::InvalidFormat),
        Some((id, list, h)) => {
            let list = match list {
                Some(l) => l,
                None => Seq::empty(),
            };
            let reqs = if trim(list).len() == 0 {
                Seq::empty()
            } else {
                requirements_from(requirement_items(list))
            };
            match closing_brace(text, h, 1) {
                None => Err(BlockError::UnmatchedBraces),
                Some(e) => Ok((id, reqs, trim(text.subrange(h, e)))),
            }
        },
    }
}

/// The variable names of a list (see `var_names`).
fn parse_var_names(list: &Vec<char>) -> (r: Vec<String>)
    ensures
        r@.map_values(|s: String| s@) == var_names(list@),
{
    let trimmed = trim_chars(list);
    let mut names: Vec<String> = Vec::new();
    if trimmed.len() == 0 {
        assert(names@.map_values(|s: String| s@) =~= Seq::<Seq<char>>::empty());
        return names;
    }
    // split on commas, trimming each piece
    let mut piece: Vec<char> = Vec::new();
    let mut k: usize = 0;
    proof {
        assert(list@.take(0) =~= Seq::<char>::empty());
        assert(names@.map_values(|s: String| s@) + seq![trim(piece@)] =~= split_on(
            list@.take(0),
            ',',
        ).map_values(|p: Seq<char>| trim(p)));
    }
    while k < list.len()
        invariant
            k <= list@.len(),
            names@.map_values(|s: String| s@) + seq![trim(piece@)] == split_on(
                list@.take(k as int),
                ',',
            ).map_values(|p: Seq<char>| trim(p)),
            split_on(list@.take(k as int), ',').last() == piece@,
        decreases list@.len() - k,
    {
        let c = list[k];
        let ghost pre = split_on(list@.take(k as int), ',');
        proof {
            lemma_split_on_nonempty(list@.take(k as int), ',');
            assert(list@.take(k + 1).drop_last() =~= list@.take(k as int));
        }
        let ghost nm = names@.map_values(|s: String| s@);
        let ghost old_piece = piece@;
        proof {
            assert(pre.map_values(|p: Seq<char>| trim(p)) =~= nm.push(trim(old_piece)));
        }
        if c == ',' {
            let ghost before = names@.map_values(|s: String| s@);
            let t = trim_chars(&piece);
            names.push(string_from_chars(&t));
            piece = Vec::new();
            proof {
                assert(names@.map_values(|s: String| s@) =~= before.push(trim(
                    split_on(list@.take(k as int), ',').last(),
                )));
                assert(split_on(list@.take(k + 1), ',') =~= pre.push(Seq::empty()));
                assert(pre.push(Seq::empty()).map_values(|p: Seq<char>| trim(p)) =~= pre.map_values(
                    |p: Seq<char>| trim(p),
                ).push(trim(Seq::empty())));
                assert(names@.map_values(|s: String| s@) + seq![trim(piece@)] =~= split_on(
                    list@.take(k + 1),
                    ',',
                ).map_values(|p: Seq<char>| trim(p)));
            }
        } else {
            piece.push(c);
            proof {
                assert(split_on(list@.take(k + 1), ',') =~= pre.update(
                    pre.len() - 1,
                    pre.last().push(c),
                ));
                let m = pre.map_values(|p: Seq<char>| trim(p));
                assert(pre.update(pre.len() - 1, pre.last().push(c)).map_values(
                    |p: Seq<char>| trim(p),
                ) =~= m.update(pre.len() - 1, trim(old_piece.push(c))));
                assert(m.update(pre.len() - 1, trim(old_piece.push(c))) =~= nm.push(
                    trim(old_piece.push(c)),
                ));
                assert(names@.map_values(|s: String| s@) + seq![trim(piece@)] =~= split_on(
                    list@.take(k + 1),
                    ',',
                ).map_values(|p: Seq<char>| trim(p)));
            }
        }
        k = k + 1;
    }
    let ghost before = names@.map_values(|s: String| s@);
    let t = trim_chars(&piece);
    names.push(string_from_chars(&t));
    proof {
        assert(list@.take(list@.len() as int) =~= list@);
        assert(names@.map_values(|s: String| s@) =~= before + seq![trim(piece@)]);
    }
    names
}

proof fn lemma_requirement_index(reqs: Seq<(Seq<char>, Seq<Seq<char>>)>, key: Seq<char>)
    ensures
        match requirement_index(reqs, key) {
            Some(i) => 0 <= i < reqs.len() && reqs[i].0 == key && forall|j: int|
                0 <= j < i ==> reqs[j].0 != key,
            None => forall|j: int| 0 <= j < reqs.len() ==> reqs[j].0 != key,
        },
    decreases reqs.len(),
{
    if reqs.len() > 0 {
        let pre = reqs.drop_last();
        lemma_requirement_index(pre, key);
        assert(forall|j: int| 0 <= j < pre.len() ==> pre[j] == reqs[j]);
    }
}

/// Records that `key` is required with `names` (see `insert_requirement`).
fn insert_requirement_into(reqs: &mut Vec<(String, Vec<String>)>, key: String, names: Vec<String>)
    ensures
        requirements_view(final(reqs)@) == insert_requirement(
            requirements_view(old(reqs)@),
            key@,
            names@.map_values(|s: String| s@),
        ),
{
    let ghost rv = requirements_view(reqs@);
    proof {
        lemma_requirement_index(rv, key@);
    }
    let mut i: usize = 0;
    while i < reqs.len()
        invariant
            i <= reqs@.len(),
            rv == requirements_view(reqs@),
            rv == requirements_view(old(reqs)@),
            forall|j: int| 0 <= j < i ==> rv[j].0 != key@,
        decreases reqs@.len() - i,
    {
        if str_equals(reqs[i].0.as_str(), key.as_str()) {
            assert(rv[i as int].0 == key@);
            proof {
                lemma_requirement_index(rv, key@);
                match requirement_index(rv, key@) {
                    Some(i2) => {
                        if i2 < i {
                            assert(rv[i2].0 != key@);
                        } else if i2 > i {
                            assert(rv[i as int].0 != key@);
                        }
                    },
                    None => {
                        assert(rv[i as int].0 != key@);
                    },
                }
            }
            assert(requirement_index(rv, key@) == Some(i as int));
            let ghost entry = requirement_view((key, names));
            reqs.set(i, (key, names));
            assert(requirements_view(reqs@) =~= rv.update(i as int, entry));
            return ;
        }
        i = i + 1;
    }
    assert(requirement_index(rv, key@) is None);
    let ghost entry = requirement_view((key, names));
    reqs.push((key, names));
    assert(requirements_view(reqs@) =~= rv.push(entry));
}

/// The position of the `}` that closes a block whose content starts at
/// `start` (see `closing_brace`).
fn find_closing_brace(chars: &Vec<char>, start: usize) -> (r: Option<usize>)
    requires
        start <= chars@.len(),
    ensures
        match r {
            Some(e) => closing_brace(chars@, start as int, 1) == Some(e as int) && start <= e
                < chars@.len(),
            None => closing_brace(chars@, start as int, 1) is None,
        },
{
    let mut depth: u128 = 1;
    let mut i = start;
    while i < chars.len()
        invariant
            start <= i <= chars@.len(),
            1 <= depth <= i - start + 1,
            closing_brace(chars@, start as int, 1) == closing_brace(chars@, i as int, depth as nat),
        decreases chars@.len() - i,
    {
        let c = chars[i];
        if c == '{' {
            depth = depth + 1;
        } else if c == '}' {
            if depth <= 1 {
                return Some(i);
            }
            depth = depth - 1;
        }
        i = i + 1;
    }
    None
}

/// Reads a block: its id, its requirements and its content, without the
/// white space around it (see `block_meta_spec`).
pub fn extract_block_meta(block_text: &str) -> (r: Result<(String, Vec<(String, Vec<String>)>, String), BlockError>)
    ensures
        match r {
            Ok((id, reqs, content)) => block_meta_spec(block_text@) == Ok::<(Seq<char>, Seq<(Seq<char>, Seq<Seq<char>>)>, Seq<char>), BlockError>((id@, requirements_view(reqs@), content@)),
            Err(err) => block_meta_spec(block_text@) == Err::<(Seq<char>, Seq<(Seq<char>, Seq<Seq<char>>)>, Seq<char>), BlockError>(err),
        },
{
    let (block_id, list, header_end) = match match_block_header(block_text) {
        Some(found) => found,
        None => {
            return Err(BlockError::InvalidFormat);
        },
    };
    let ghost list_view = match opt_view(list) {
        Some(l) => l,
        None => Seq::<char>::empty(),
    };
    let list_str = match list {
        Some(l) => l,
        None => String::new(),
    };
    assert(list_str@ == list_view);
    let list_chars = chars_of(list_str.as_str());
    let trimmed = trim_chars(&list_chars);
    let mut requirements: Vec<(String, Vec<String>)> = Vec::new();
    assert(requirements_view(requirements@) =~= Seq::<(Seq<char>, Seq<Seq<char>>)>::empty());
    if trimmed.len() > 0 {
        let items = match_requirement_items(list_str.as_str());
        let ghost iv = items@.map_values(|x: (String, Option<String>)| (x.0@, opt_view(x.1)));
        let mut k: usize = 0;
        while k < items.len()
            invariant
                k <= items@.len(),
                iv == items@.map_values(|x: (String, Option<String>)| (x.0@, opt_view(x.1))),
                requirements_view(requirements@) == requirements_from(iv.take(k as int)),
            decreases items@.len() - k,
        {
            let (req_id, vars) = &items[k];
            let var_text = match vars {
                Some(v) => chars_of(v.as_str()),
                None => Vec::new(),
            };
            let names = parse_var_names(&var_text);
            proof {
                assert(iv.take(k + 1).drop_last() =~= iv.take(k as int));
                assert(iv.take(k + 1).last() == iv[k as int]);
            }
            insert_requirement_into(&mut requirements, req_id.clone(), names);
            k = k + 1;
        }
        assert(iv.take(items@.len() as int) =~= iv);
    }
    let chars = chars_of(block_text);
    let end = match find_closing_brace(&chars, header_end) {
        Some(e) => e,
        None => {
            return Err(BlockError::UnmatchedBraces);
        },
    };
    let content = string_from_chars(&trim_chars(&sub_chars(&chars, header_end, end)));
    Ok((block_id, requirements, content))
}

/// Reads a block into a `TokenBlock`: its id, its requirements and the
/// tokens of its content.
pub fn read_block(block_text: &str) -> (r: Result<TokenBlock, BlockError>)
    ensures
        match r {
            Ok(b) => block_meta_spec(block_text@) matches Ok((id, reqs, content)) && b.id@ == id
                && requirements_view(b.requirements@) == reqs && tokens_view(b.tokens@)
                == tokenize_spec(content),
            Err(err) => block_meta_spec(block_text@) == Err::<(Seq<char>, Seq<(Seq<char>, Seq<Seq<char>>)>, Seq<char>), BlockError>(err),
        },
{
    match extract_block_meta(block_text) {
        Ok((id, requirements, content)) => {
            let tokens = tokenize(content.as_str());
            Ok(TokenBlock::new(id, requirements, tokens))
        },
        Err(err) => Err(err),
    }
}

} // verus!
