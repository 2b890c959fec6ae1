//! Ordering of the page images Ghostscript writes: each file's page number
//! is read from its name, and the pages are sorted by it, stably.
use vstd::prelude::*;
use crate::chars::{
    chars_of, decimal, last_segment, last_segment_exec, lemma_decimal_digits, lemma_last_segment_after, lemma_parse_decimal,
    parse_usize, parse_usize_exec, is_digit,
};

verus! {

/// The page number of an image file: the decimal number after the last `-`
/// of its file stem (the whole stem when there is none), or 0 when there is
/// no such number or no readable stem.
pub open spec fn page_index_of(stem: Option<Seq<char>>) -> usize {
    match stem {
        Some(s) => match parse_usize(last_segment(s, '-')) {
            Some(n) => n,
            None => 0,
        },
        None => 0,
    }
}

/// The page number of an image file from its stem.
pub fn png_page_index(stem: Option<&str>) -> (r: usize)
    ensures
        r == page_index_of(match stem {
            Some(s) => Some(s@),
            None => None,
        }),
{
    match stem {
        None => 0,
        Some(s) => {
            let chars = chars_of(s);
            let seg = last_segment_exec(&chars, '-');
            match parse_usize_exec(&seg) {
                Some(n) => n,
                None => 0,
            }
        },
    }
}

/// The names Ghostscript gives the page images it writes: `page-1.png`,
/// `page-2.png`, and so on.
pub const PAGE_FILE_PATTERN: &'static str = "page-%d.png";

/// The file stem of page `i` written with [`PAGE_FILE_PATTERN`].
pub open spec fn page_file_stem(i: nat) -> Seq<char> {
    "page-"@ + decimal(i)
}

/// Law: the page image Ghostscript writes for page `i` is numbered `i`, so
/// sorting the files by number puts the pages in document order.
pub proof fn law_page_files_numbered(i: nat)
    requires
        i <= usize::MAX,
    ensures
        page_index_of(Some(page_file_stem(i))) == i,
{
    reveal_strlit("page-");
    lemma_decimal_digits(i);
    assert forall|k: int| 0 <= k < decimal(i).len() implies #[trigger] decimal(i)[k] != '-' by {
        assert(is_digit(decimal(i)[k]));
    }
    lemma_last_segment_after("page-"@, decimal(i), '-');
    lemma_parse_decimal(i);
}

/// `e` inserted into `s` after every entry whose key is not larger.
pub open spec fn insert_by_key<T>(s: Seq<(usize, T)>, e: (usize, T)) -> Seq<(usize, T)>
    decreases s.len(),
{
    if s.len() == 0 || s.last().0 <= e.0 {
        s.push(e)
    } else {
        insert_by_key(s.drop_last(), e).push(s.last())
    }
}

/// `s` sorted by key, entries with equal keys keeping their order.
pub open spec fn sorted_by_key<T>(s: Seq<(usize, T)>) -> Seq<(usize, T)>
    decreases s.len(),
{
    if s.len() == 0 {
        s
    } else {
        insert_by_key(sorted_by_key(s.drop_last()), s.last())
    }
}

/// Keys never decrease along `s`.
pub open spec fn keys_ascending<T>(s: Seq<(usize, T)>) -> bool {
    forall|i: int, j: int| 0 <= i <= j < s.len() ==> #[trigger] s[i].0 <= #[trigger] s[j].0
}

proof fn lemma_insert_at<T>(s: Seq<(usize, T)>, e: (usize, T), pos: int)
    requires
        0 <= pos <= s.len(),
        forall|j: int| pos <= j < s.len() ==> #[trigger] s[j].0 > e.0,
        pos == 0 || s[pos - 1].0 <= e.0,
    ensures
        insert_by_key(s, e) == s.insert(pos, e),
    decreases s.len() - pos,
{
    if s.len() == pos {
        assert(s.insert(pos, e) =~= s.push(e));
    } else {
        lemma_insert_at(s.drop_last(), e, pos);
        assert(s.insert(pos, e) =~= s.drop_last().insert(pos, e).push(s.last()));
    }
}

proof fn lemma_insert_keeps_order<T>(s: Seq<(usize, T)>, e: (usize, T))
    requires
        keys_ascending(s),
    ensures
        keys_ascending(insert_by_key(s, e)),
        insert_by_key(s, e).len() == s.len() + 1,
    decreases s.len(),
{
    if s.len() == 0 || s.last().0 <= e.0 {
    } else {
        lemma_insert_keeps_order(s.drop_last(), e);
        let t = insert_by_key(s.drop_last(), e);
        assert forall|i: int| 0 <= i < t.len() implies #[trigger] t[i].0 <= s.last().0 by {
            lemma_insert_bounded(s.drop_last(), e, s.last().0);
        }
    }
}

proof fn lemma_insert_bounded<T>(s: Seq<(usize, T)>, e: (usize, T), b: usize)
    requires
        forall|i: int| 0 <= i < s.len() ==> #[trigger] s[i].0 <= b,
        e.0 <= b,
    ensures
        forall|i: int| 0 <= i < insert_by_key(s, e).len() ==> #[trigger] insert_by_key(s, e)[i].0 <= b,
    decreases s.len(),
{
    if s.len() == 0 || s.last().0 <= e.0 {
    } else {
        lemma_insert_bounded(s.drop_last(), e, b);
        let t = insert_by_key(s.drop_last(), e);
        assert(insert_by_key(s, e) == t.push(s.last()));
        assert forall|i: int| 0 <= i < t.len() + 1 implies #[trigger] t.push(s.last())[i].0 <= b by {
            if i < t.len() {
                assert(t.push(s.last())[i] == t[i]);
            } else {
                assert(s[s.len() - 1].0 <= b);
            }
        }
    }
}

proof fn lemma_insert_by_key_multiset<T>(s: Seq<(usize, T)>, e: (usize, T))
    ensures
        insert_by_key(s, e).to_multiset() =~= s.to_multiset().insert(e),
    decreases s.len(),
{
    broadcast use vstd::seq_lib::group_to_multiset_ensures;
    broadcast use vstd::multiset::group_multiset_axioms;

    if s.len() == 0 || s.last().0 <= e.0 {
    } else {
        lemma_insert_by_key_multiset(s.drop_last(), e);
        assert(s.drop_last().push(s.last()) =~= s);
    }
}

/// Law: pages sorted by their numbers come out in ascending order, with
/// the same pages, none lost or added.
pub proof fn law_sorted_pages_ascend<T>(s: Seq<(usize, T)>)
    ensures
        keys_ascending(sorted_by_key(s)),
        sorted_by_key(s).len() == s.len(),
        sorted_by_key(s).to_multiset() == s.to_multiset(),
    decreases s.len(),
{
    broadcast use vstd::seq_lib::group_to_multiset_ensures;

    if s.len() > 0 {
        law_sorted_pages_ascend(s.drop_last());
        lemma_insert_keeps_order(sorted_by_key(s.drop_last()), s.last());
        lemma_insert_by_key_multiset(sorted_by_key(s.drop_last()), s.last());
        assert(s.drop_last().push(s.last()) =~= s);
    }
}

/// Sorts pages by number, keeping pages with equal numbers in their
/// original order.
pub fn sort_pages_by_index<T>(pages: Vec<(usize, T)>) -> (r: Vec<(usize, T)>)
    ensures
        r@ == sorted_by_key(pages@),
{
    let mut input = pages;
    let ghost all = input@;
    let ghost n = all.len();
    let mut out: Vec<(usize, T)> = Vec::new();
    assert(all.skip(0) =~= all);
    assert(all.take(0) =~= Seq::<(usize, T)>::empty());
    while input.len() > 0
        invariant
            n == all.len(),
            input@.len() <= n,
            input@ == all.skip(n - input@.len()),
            out@ == sorted_by_key(all.take(n - input@.len())),
            keys_ascending(out@),
        decreases input.len(),
    {
        let ghost k = n - input@.len();
        let e = input.remove(0);
        assert(all[k] == e);
        assert(input@ =~= all.skip(k + 1));
        assert(all.take(k + 1).drop_last() =~= all.take(k));
        let mut pos = out.len();
        while pos > 0 && out[pos - 1].0 > e.0
            invariant
                pos <= out@.len(),
                forall|j: int| pos <= j < out@.len() ==> #[trigger] out@[j].0 > e.0,
            decreases pos,
        {
            pos = pos - 1;
        }
        proof {
            lemma_insert_at(out@, e, pos as int);
            lemma_insert_keeps_order(out@, e);
        }
        out.insert(pos, e);
    }
    assert(all.take(n as int) =~= all);
    out
}

} // verus!
