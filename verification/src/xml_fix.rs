//! Injection of a non-breaking-space run into run-less `<w:p>` elements of
//! `word/document.xml`, so that converters which drop empty paragraphs keep
//! them.  A paragraph is what the pattern `(?s)(<w:p[^>]*>)(.*?)(</w:p>)`
//! matches when scanned left to right without overlap.
use vstd::prelude::*;

verus! {

/// `<w:p`, the start of a paragraph element.
pub open spec fn open_tag() -> Seq<u8> {
    seq![60u8, 119, 58, 112]
}

/// `>`, the end of an opening tag.
pub open spec fn tag_end() -> Seq<u8> {
    seq![62u8]
}

/// `</w:p>`, the end of a paragraph element.
pub open spec fn close_tag() -> Seq<u8> {
    seq![60u8, 47, 119, 58, 112, 62]
}

/// `<w:r>`, `<w:r ` and `<w:r/`: the starts of a run element (a bare `<w:r`
/// would also match `<w:rPr>`).
pub open spec fn run_marker(which: int) -> Seq<u8> {
    if which == 0 {
        seq![60u8, 119, 58, 114, 62]
    } else if which == 1 {
        seq![60u8, 119, 58, 114, 32]
    } else {
        seq![60u8, 119, 58, 114, 47]
    }
}

/// `<w:r><w:t xml:space="preserve">` U+00A0 `</w:t></w:r>`: the run that is
/// injected (an ordinary space would be dropped as well).
pub open spec fn space_run() -> Seq<u8> {
    seq![
        60u8, 119, 58, 114, 62, 60, 119, 58, 116, 32, 120, 109, 108, 58, 115, 112, 97, 99, 101,
        61, 34, 112, 114, 101, 115, 101, 114, 118, 101, 34, 62, 0xc2, 0xa0, 60, 47, 119, 58,
        116, 62, 60, 47, 119, 58, 114, 62,
    ]
}

/// `lit` occurs in `s` at position `i`.
pub open spec fn occurs_at(s: Seq<u8>, i: int, lit: Seq<u8>) -> bool {
    &&& 0 <= i
    &&& i + lit.len() <= s.len()
    &&& forall|d: int| #![trigger lit[d]] 0 <= d < lit.len() ==> s[i + d] == lit[d]
}

/// `lit` occurs somewhere in `s`.
pub open spec fn contains_lit(s: Seq<u8>, lit: Seq<u8>) -> bool {
    exists|j: int| occurs_at(s, j, lit)
}

/// The first position at or after `from` where `lit` occurs.
pub open spec fn find_from(s: Seq<u8>, lit: Seq<u8>, from: int) -> Option<int>
    decreases s.len() - from,
{
    if from < 0 || from + lit.len() > s.len() {
        None
    } else if occurs_at(s, from, lit) {
        Some(from)
    } else {
        find_from(s, lit, from + 1)
    }
}

/// The paragraph that starts at `i`, if any: the position of the `>` that
/// ends its opening tag and the position of its closing `</w:p>`.
pub open spec fn paragraph_at(s: Seq<u8>, i: int) -> Option<(int, int)> {
    if occurs_at(s, i, open_tag()) {
        match find_from(s, tag_end(), i + 4) {
            Some(k) => match find_from(s, close_tag(), k + 1) {
                Some(m) => Some((k, m)),
                None => None,
            },
            None => None,
        }
    } else {
        None
    }
}

/// The leftmost paragraph that starts at or after `p`: its start, the end
/// of its opening tag and the position of its closing tag.
pub open spec fn next_paragraph(s: Seq<u8>, p: int) -> Option<(int, int, int)>
    decreases s.len() - p,
{
    if p < 0 || p >= s.len() {
        None
    } else {
        match paragraph_at(s, p) {
            Some((k, m)) => Some((p, k, m)),
            None => next_paragraph(s, p + 1),
        }
    }
}

/// The content of a paragraph holds a run element.
pub open spec fn has_run(content: Seq<u8>) -> bool {
    contains_lit(content, run_marker(0)) || contains_lit(content, run_marker(1))
        || contains_lit(content, run_marker(2))
}

/// The paragraph `s[i .. m + 6]` after the fix: unchanged when it holds a
/// run, otherwise with the space run inserted before `</w:p>`.
pub open spec fn fixed_paragraph(s: Seq<u8>, i: int, k: int, m: int) -> Seq<u8> {
    if has_run(s.subrange(k + 1, m)) {
        s.subrange(i, m + 6)
    } else {
        s.subrange(i, m) + space_run() + close_tag()
    }
}

/// The fix applied to `s[p ..]`.
pub open spec fn fix_from(s: Seq<u8>, p: int) -> Seq<u8>
    decreases s.len() - p,
{
    if p < 0 || p > s.len() {
        seq![]
    } else {
        match next_paragraph(s, p) {
            None => s.subrange(p, s.len() as int),
            Some((i, k, m)) => if p <= i && i < k && k < m && m + 6 <= s.len() {
                s.subrange(p, i) + fixed_paragraph(s, i, k, m) + fix_from(s, m + 6)
            } else {
                s.subrange(p, s.len() as int)
            },
        }
    }
}

/// The XML text with every run-less paragraph given a space run.
pub open spec fn fixed_xml(s: Seq<u8>) -> Seq<u8> {
    fix_from(s, 0)
}

/// Every paragraph the scanner finds in `s[p ..]` holds a run element.
pub open spec fn paragraphs_have_runs(s: Seq<u8>, p: int) -> bool
    decreases s.len() - p,
{
    if p < 0 || p > s.len() {
        true
    } else {
        match next_paragraph(s, p) {
            None => true,
            Some((i, k, m)) => if p <= i && i < k && k < m && m + 6 <= s.len() {
                has_run(s.subrange(k + 1, m)) && paragraphs_have_runs(s, m + 6)
            } else {
                true
            },
        }
    }
}

// ───────────────────────── lemmas on searching ─────────────────────────

/// What `find_from` returns, in terms of occurrences.
pub proof fn lemma_find_from(s: Seq<u8>, lit: Seq<u8>, from: int)
    requires
        0 <= from,
        lit.len() > 0,
    ensures
        match find_from(s, lit, from) {
            Some(x) => from <= x && occurs_at(s, x, lit) && forall|j: int|
                from <= j < x ==> !occurs_at(s, j, lit),
            None => forall|j: int| from <= j ==> !occurs_at(s, j, lit),
        },
    decreases s.len() - from,
{
    if from + lit.len() > s.len() {
    } else if occurs_at(s, from, lit) {
    } else {
        lemma_find_from(s, lit, from + 1);
        match find_from(s, lit, from + 1) {
            Some(x) => {
                assert forall|j: int| from <= j < x implies !occurs_at(s, j, lit) by {
                    if j > from {
                    }
                }
            },
            None => {
                assert forall|j: int| from <= j implies !occurs_at(s, j, lit) by {
                    if j > from {
                    }
                }
            },
        }
    }
}

/// `find_from` is determined by the occurrences of `lit`.
pub proof fn lemma_find_from_is(s: Seq<u8>, lit: Seq<u8>, from: int, x: Option<int>)
    requires
        0 <= from,
        lit.len() > 0,
        match x {
            Some(x) => from <= x && occurs_at(s, x, lit) && forall|j: int|
                from <= j < x ==> !occurs_at(s, j, lit),
            None => forall|j: int| from <= j ==> !occurs_at(s, j, lit),
        },
    ensures
        find_from(s, lit, from) == x,
{
    lemma_find_from(s, lit, from);
    match find_from(s, lit, from) {
        Some(y) => {
            match x {
                Some(x) => {
                    if y < x {
                    } else if x < y {
                    }
                },
                None => {},
            }
        },
        None => {
            match x {
                Some(x) => {
                    assert(!occurs_at(s, x, lit));
                },
                None => {},
            }
        },
    }
}

/// Shape of a paragraph found at `i`.
pub proof fn lemma_paragraph_at(s: Seq<u8>, i: int)
    requires
        paragraph_at(s, i) is Some,
    ensures
        ({
            let (k, m) = paragraph_at(s, i)->Some_0;
            &&& occurs_at(s, i, open_tag())
            &&& i + 4 <= k
            &&& k < m
            &&& m + 6 <= s.len()
            &&& occurs_at(s, k, tag_end())
            &&& forall|j: int| i + 4 <= j < k ==> !occurs_at(s, j, tag_end())
            &&& occurs_at(s, m, close_tag())
            &&& forall|j: int| k + 1 <= j < m ==> !occurs_at(s, j, close_tag())
        }),
{
    lemma_find_from(s, tag_end(), i + 4);
    let k = find_from(s, tag_end(), i + 4)->Some_0;
    lemma_find_from(s, close_tag(), k + 1);
}

/// Once an opening tag has no paragraph, no later position has one.
pub proof fn lemma_no_later_paragraph(s: Seq<u8>, i: int, j: int)
    requires
        occurs_at(s, i, open_tag()),
        paragraph_at(s, i) is None,
        i <= j,
    ensures
        paragraph_at(s, j) is None,
{
    if occurs_at(s, j, open_tag()) {
        lemma_find_from(s, tag_end(), i + 4);
        lemma_find_from(s, tag_end(), j + 4);
        match find_from(s, tag_end(), i + 4) {
            None => {},
            Some(k) => {
                lemma_find_from(s, close_tag(), k + 1);
                match find_from(s, tag_end(), j + 4) {
                    None => {},
                    Some(k2) => {
                        assert(k <= k2) by {
                            if k2 < k {
                                assert(!occurs_at(s, k2, tag_end()));
                            }
                        }
                        lemma_find_from(s, close_tag(), k2 + 1);
                        match find_from(s, close_tag(), k2 + 1) {
                            None => {},
                            Some(m2) => {
                                assert(!occurs_at(s, m2, close_tag()));
                            },
                        }
                    },
                }
            },
        }
    }
}

/// What `next_paragraph` returns, in terms of `paragraph_at`.
pub proof fn lemma_next_paragraph(s: Seq<u8>, p: int)
    requires
        0 <= p,
    ensures
        match next_paragraph(s, p) {
            Some((i, k, m)) => p <= i && paragraph_at(s, i) == Some((k, m)) && forall|j: int|
                p <= j < i ==> paragraph_at(s, j) is None,
            None => forall|j: int| p <= j ==> paragraph_at(s, j) is None,
        },
    decreases s.len() - p,
{
    if p >= s.len() {
        assert forall|j: int| p <= j implies paragraph_at(s, j) is None by {
            assert(!occurs_at(s, j, open_tag()));
        }
    } else {
        match paragraph_at(s, p) {
            Some(_) => {},
            None => {
                lemma_next_paragraph(s, p + 1);
                match next_paragraph(s, p + 1) {
                    Some((i, k, m)) => {
                        assert forall|j: int| p <= j < i implies paragraph_at(s, j) is None by {
                            if j > p {
                            }
                        }
                    },
                    None => {
                        assert forall|j: int| p <= j implies paragraph_at(s, j) is None by {
                            if j > p {
                            }
                        }
                    },
                }
            },
        }
    }
}

/// `next_paragraph` is determined by `paragraph_at`.
pub proof fn lemma_next_paragraph_is(s: Seq<u8>, p: int, x: Option<(int, int, int)>)
    requires
        0 <= p,
        match x {
            Some((i, k, m)) => p <= i && paragraph_at(s, i) == Some((k, m)) && forall|j: int|
                p <= j < i ==> paragraph_at(s, j) is None,
            None => forall|j: int| p <= j ==> paragraph_at(s, j) is None,
        },
    ensures
        next_paragraph(s, p) == x,
{
    lemma_next_paragraph(s, p);
    match next_paragraph(s, p) {
        Some((i, k, m)) => {
            match x {
                Some((i2, k2, m2)) => {
                    if i < i2 {
                    } else if i2 < i {
                    }
                },
                None => {},
            }
        },
        None => {
            match x {
                Some((i2, k2, m2)) => {
                    assert(paragraph_at(s, i2) is None);
                },
                None => {},
            }
        },
    }
}

/// Before the leftmost paragraph there is no opening tag at all.
pub proof fn lemma_no_open_before(s: Seq<u8>, p: int)
    requires
        0 <= p,
        next_paragraph(s, p) is Some,
    ensures
        ({
            let (i, k, m) = next_paragraph(s, p)->Some_0;
            forall|j: int| p <= j < i ==> !occurs_at(s, j, open_tag())
        }),
{
    lemma_next_paragraph(s, p);
    let (i, k, m) = next_paragraph(s, p)->Some_0;
    assert forall|j: int| p <= j < i implies !occurs_at(s, j, open_tag()) by {
        if occurs_at(s, j, open_tag()) {
            lemma_no_later_paragraph(s, j, i);
        }
    }
}

// ───────────────────────── executable search ─────────────────────────

/// Whether `lit` occurs in `s` at `i`.
pub fn occurs_at_exec(s: &[u8], i: usize, lit: &[u8]) -> (r: bool)
    ensures
        r == occurs_at(s@, i as int, lit@),
{
    if lit.len() > s.len() || i > s.len() - lit.len() {
        return false;
    }
    let mut d: usize = 0;
    while d < lit.len()
        invariant
            i + lit@.len() <= s@.len(),
            s@.len() == s.len(),
            lit@.len() == lit.len(),
            d <= lit@.len(),
            forall|e: int| 0 <= e < d ==> s@[i + e] == lit@[e],
        decreases lit.len() - d,
    {
        if s[i + d] != lit[d] {
            assert(s@[i + d as int] != lit@[d as int]);
            return false;
        }
        d = d + 1;
    }
    true
}

/// The first position at or after `from` where `lit` occurs.
pub fn find_from_exec(s: &[u8], lit: &[u8], from: usize) -> (r: Option<usize>)
    requires
        lit@.len() > 0,
    ensures
        match r {
            Some(x) => find_from(s@, lit@, from as int) == Some(x as int),
            None => find_from(s@, lit@, from as int) is None,
        },
{
    let mut j: usize = from;
    while j < s.len() && (lit.len() <= s.len() - j)
        invariant
            from <= j,
            lit@.len() > 0,
            forall|x: int| from <= x < j ==> !occurs_at(s@, x, lit@),
        decreases s.len() - j,
    {
        if occurs_at_exec(s, j, lit) {
            proof {
                lemma_find_from_is(s@, lit@, from as int, Some(j as int));
            }
            return Some(j);
        }
        j = j + 1;
    }
    proof {
        assert forall|x: int| from <= x implies !occurs_at(s@, x, lit@) by {
            if x >= j {
            }
        }
        lemma_find_from_is(s@, lit@, from as int, None);
    }
    None
}

/// Whether the content of a paragraph holds a run element.
pub fn has_run_exec(content: &[u8]) -> (r: bool)
    ensures
        r == has_run(content@),
{
    let m0: [u8; 5] = [60u8, 119, 58, 114, 62];
    let m1: [u8; 5] = [60u8, 119, 58, 114, 32];
    let m2: [u8; 5] = [60u8, 119, 58, 114, 47];
    assert(m0@ =~= run_marker(0));
    assert(m1@ =~= run_marker(1));
    assert(m2@ =~= run_marker(2));
    let f0 = find_from_exec(content, &m0, 0);
    let f1 = find_from_exec(content, &m1, 0);
    let f2 = find_from_exec(content, &m2, 0);
    proof {
        lemma_find_from(content@, run_marker(0), 0);
        lemma_find_from(content@, run_marker(1), 0);
        lemma_find_from(content@, run_marker(2), 0);
        if contains_lit(content@, run_marker(0)) {
            let j = choose|j: int| occurs_at(content@, j, run_marker(0));
        }
        if contains_lit(content@, run_marker(1)) {
            let j = choose|j: int| occurs_at(content@, j, run_marker(1));
        }
        if contains_lit(content@, run_marker(2)) {
            let j = choose|j: int| occurs_at(content@, j, run_marker(2));
        }
    }
    f0.is_some() || f1.is_some() || f2.is_some()
}

/// No paragraph starts at or after `p` when the first opening tag from `p`
/// (if any) at `q` has none.
proof fn lemma_no_paragraph_from(s: Seq<u8>, p: int, q: Option<int>)
    requires
        0 <= p,
        match q {
            Some(q) => find_from(s, open_tag(), p) == Some(q) && paragraph_at(s, q) is None,
            None => find_from(s, open_tag(), p) is None,
        },
    ensures
        next_paragraph(s, p) is None,
{
    lemma_find_from(s, open_tag(), p);
    assert forall|j: int| p <= j implies paragraph_at(s, j) is None by {
        match q {
            Some(q) => {
                if j >= q {
                    lemma_no_later_paragraph(s, q, j);
                }
            },
            None => {},
        }
    }
    lemma_next_paragraph_is(s, p, None);
}

/// Gives every paragraph of `word/document.xml` that holds no run element
/// a run with a non-breaking space before its closing tag; everything else
/// is copied unchanged.
pub fn fix_empty_paragraphs_xml(xml: &[u8]) -> (r: Vec<u8>)
    ensures
        r@ == fixed_xml(xml@),
{
    let open: [u8; 4] = [60u8, 119, 58, 112];
    let gt: [u8; 1] = [62u8];
    let close: [u8; 6] = [60u8, 47, 119, 58, 112, 62];
    let run: [u8; 45] = [
        60u8, 119, 58, 114, 62, 60, 119, 58, 116, 32, 120, 109, 108, 58, 115, 112, 97, 99, 101,
        61, 34, 112, 114, 101, 115, 101, 114, 118, 101, 34, 62, 0xc2, 0xa0, 60, 47, 119, 58,
        116, 62, 60, 47, 119, 58, 114, 62,
    ];
    assert(open@ =~= open_tag());
    assert(gt@ =~= tag_end());
    assert(close@ =~= close_tag());
    assert(run@ =~= space_run());
    let mut out: Vec<u8> = Vec::new();
    let mut p: usize = 0;
    assert(out@ + fix_from(xml@, 0) =~= fixed_xml(xml@));
    loop
        invariant
            p <= xml@.len(),
            open@ == open_tag(),
            gt@ == tag_end(),
            close@ == close_tag(),
            run@ == space_run(),
            out@ + fix_from(xml@, p as int) == fixed_xml(xml@),
        decreases xml@.len() - p,
    {
        let found = find_from_exec(xml, &open, p);
        let para: Option<(usize, usize, usize)> = match found {
            None => None,
            Some(q) => {
                proof {
                    lemma_find_from(xml@, open_tag(), p as int);
                    assert(open_tag().len() == 4);
                    assert(occurs_at(xml@, q as int, open_tag()));
                    assert(q + 4 <= xml@.len());
                    assert(xml@.len() == xml.len());
                }
                match find_from_exec(xml, &gt, q + 4) {
                    None => None,
                    Some(k) => {
                        proof {
                            lemma_find_from(xml@, tag_end(), q + 4);
                            assert(tag_end().len() == 1);
                            assert(occurs_at(xml@, k as int, tag_end()));
                            assert(k + 1 <= xml@.len());
                            assert(xml@.len() == xml.len());
                        }
                        match find_from_exec(xml, &close, k + 1) {
                            None => None,
                            Some(m) => Some((q, k, m)),
                        }
                    },
                }
            },
        };
        match para {
            None => {
                proof {
                    match found {
                        Some(q) => lemma_no_paragraph_from(xml@, p as int, Some(q as int)),
                        None => lemma_no_paragraph_from(xml@, p as int, None),
                    }
                }
                let ghost before = out@;
                out.extend_from_slice(&xml[p..xml.len()]);
                assert(out@ =~= before + xml@.subrange(p as int, xml@.len() as int));
                assert(out@ =~= fixed_xml(xml@));
                return out;
            },
            Some((q, k, m)) => {
                proof {
                    lemma_find_from(xml@, open_tag(), p as int);
                    assert(paragraph_at(xml@, q as int) == Some((k as int, m as int)));
                    lemma_paragraph_at(xml@, q as int);
                    assert forall|j: int| p <= j < q implies paragraph_at(xml@, j) is None by {
                        assert(!occurs_at(xml@, j, open_tag()));
                    }
                    lemma_next_paragraph_is(xml@, p as int, Some((q as int, k as int, m as int)));
                }
                let ghost before = out@;
                out.extend_from_slice(&xml[p..q]);
                let content = &xml[k + 1..m];
                if has_run_exec(content) {
                    out.extend_from_slice(&xml[q..m + 6]);
                } else {
                    out.extend_from_slice(&xml[q..m]);
                    out.extend_from_slice(&run);
                    out.extend_from_slice(&close);
                }
                assert(out@ =~= before + xml@.subrange(p as int, q as int) + fixed_paragraph(
                    xml@,
                    q as int,
                    k as int,
                    m as int,
                ));
                p = m + 6;
            },
        }
    }
}

// ───────────────────────── the fix is idempotent ─────────────────────────

/// Occurrences depend only on the bytes they cover.
proof fn lemma_occurs_agree(s: Seq<u8>, t: Seq<u8>, a: int, b: int, n: int, j: int, lit: Seq<u8>)
    requires
        0 <= a,
        0 <= b,
        a + n <= s.len(),
        b + n <= t.len(),
        0 <= j,
        j + lit.len() <= n,
        forall|x: int| 0 <= x < n ==> #[trigger] s[a + x] == t[b + x],
    ensures
        occurs_at(s, a + j, lit) == occurs_at(t, b + j, lit),
{
    if occurs_at(s, a + j, lit) {
        assert forall|d: int| #![trigger lit[d]] 0 <= d < lit.len() implies t[b + j + d] == lit[d] by {
            assert(s[a + (j + d)] == t[b + (j + d)]);
        }
    }
    if occurs_at(t, b + j, lit) {
        assert forall|d: int| #![trigger lit[d]] 0 <= d < lit.len() implies s[a + j + d] == lit[d] by {
            assert(s[a + (j + d)] == t[b + (j + d)]);
        }
    }
}

/// Searching a suffix is searching the whole text from further on.
proof fn lemma_find_shift(s: Seq<u8>, p: int, f: int, lit: Seq<u8>)
    requires
        0 <= p <= s.len(),
        0 <= f,
        lit.len() > 0,
    ensures
        find_from(s.subrange(p, s.len() as int), lit, f) == (match find_from(s, lit, p + f) {
            Some(x) => Some(x - p),
            None => None,
        }),
{
    let u = s.subrange(p, s.len() as int);
    let n = s.len() - p;
    assert forall|j: int| 0 <= j implies occurs_at(u, j, lit) == occurs_at(s, p + j, lit) by {
        if j + lit.len() <= n {
            lemma_occurs_agree(s, u, p, 0, n, j, lit);
        }
    }
    lemma_find_from(s, lit, p + f);
    match find_from(s, lit, p + f) {
        Some(x) => {
            assert forall|j: int| f <= j < x - p implies !occurs_at(u, j, lit) by {
                assert(!occurs_at(s, p + j, lit));
            }
            assert(occurs_at(u, x - p, lit));
            lemma_find_from_is(u, lit, f, Some(x - p));
        },
        None => {
            assert forall|j: int| f <= j implies !occurs_at(u, j, lit) by {
                assert(!occurs_at(s, p + j, lit));
            }
            lemma_find_from_is(u, lit, f, None);
        },
    }
}

/// A paragraph of a suffix is a paragraph of the whole text.
proof fn lemma_paragraph_shift(s: Seq<u8>, p: int, j: int)
    requires
        0 <= p <= s.len(),
        0 <= j,
    ensures
        paragraph_at(s.subrange(p, s.len() as int), j) == (match paragraph_at(s, p + j) {
            Some((k, m)) => Some((k - p, m - p)),
            None => None,
        }),
{
    let u = s.subrange(p, s.len() as int);
    let n = s.len() - p;
    if j + 4 <= n {
        lemma_occurs_agree(s, u, p, 0, n, j, open_tag());
    }
    lemma_find_shift(s, p, j + 4, tag_end());
    match find_from(s, tag_end(), p + j + 4) {
        Some(k) => {
            lemma_find_from(s, tag_end(), p + j + 4);
            lemma_find_shift(s, p, k - p + 1, close_tag());
        },
        None => {},
    }
}

/// The leftmost paragraph of a suffix is the leftmost one of the whole text.
proof fn lemma_next_shift(s: Seq<u8>, p: int, q: int)
    requires
        0 <= p <= q,
        p <= s.len(),
    ensures
        next_paragraph(s.subrange(p, s.len() as int), q - p) == (match next_paragraph(s, q) {
            Some((i, k, m)) => Some((i - p, k - p, m - p)),
            None => None,
        }),
{
    let u = s.subrange(p, s.len() as int);
    lemma_next_paragraph(s, q);
    assert forall|j: int| 0 <= j implies paragraph_at(u, j) == (match paragraph_at(s, p + j) {
        Some((k, m)) => Some((k - p, m - p)),
        None => None,
    }) by {
        lemma_paragraph_shift(s, p, j);
    }
    match next_paragraph(s, q) {
        Some((i, k, m)) => {
            assert forall|j: int| q - p <= j < i - p implies paragraph_at(u, j) is None by {
                assert(paragraph_at(s, p + j) is None);
            }
            assert(paragraph_at(u, i - p) == Some((k - p, m - p)));
            lemma_next_paragraph_is(u, q - p, Some((i - p, k - p, m - p)));
        },
        None => {
            assert forall|j: int| q - p <= j implies paragraph_at(u, j) is None by {
                assert(paragraph_at(s, p + j) is None);
            }
            lemma_next_paragraph_is(u, q - p, None);
        },
    }
}

/// Fixing from `q` only looks at the text from `p <= q` on.
proof fn lemma_fix_from_suffix(s: Seq<u8>, p: int, q: int)
    requires
        0 <= p <= q <= s.len(),
    ensures
        fix_from(s, q) == fix_from(s.subrange(p, s.len() as int), q - p),
    decreases s.len() - q,
{
    let u = s.subrange(p, s.len() as int);
    lemma_next_shift(s, p, q);
    match next_paragraph(s, q) {
        None => {
            assert(u.subrange(q - p, u.len() as int) =~= s.subrange(q, s.len() as int));
        },
        Some((i, k, m)) => {
            if q <= i && i < k && k < m && m + 6 <= s.len() {
                lemma_fix_from_suffix(s, p, m + 6);
                assert(u.subrange(q - p, i - p) =~= s.subrange(q, i));
                assert(u.subrange(k - p + 1, m - p) =~= s.subrange(k + 1, m));
                assert(u.subrange(i - p, m - p + 6) =~= s.subrange(i, m + 6));
                assert(u.subrange(i - p, m - p) =~= s.subrange(i, m));
            } else {
                assert(u.subrange(q - p, u.len() as int) =~= s.subrange(q, s.len() as int));
            }
        },
    }
}

/// The bytes of the space run and a closing tag: no `:p` pair starts inside
/// the run, so no closing tag starts there.
proof fn lemma_run_then_close()
    ensures
        forall|r: int|
            0 <= r < space_run().len() ==> !((#[trigger] (space_run() + close_tag())[r + 3]) == 58u8
                && (space_run() + close_tag())[r + 4] == 112u8),
        space_run().len() == 45,
        space_run()[0] == 60u8,
        occurs_at(space_run(), 0, run_marker(0)),
{
    let w = space_run() + close_tag();
    assert(w.len() == 51);
    assert forall|r: int| 0 <= r < 45 implies !(#[trigger] w[r + 3] == 58u8 && w[r + 4] == 112u8) by {
        assert(w[r + 3] == (if r + 3 < 45 { space_run()[r + 3] } else { close_tag()[r + 3 - 45] }));
        assert(w[r + 4] == (if r + 4 < 45 { space_run()[r + 4] } else { close_tag()[r + 4 - 45] }));
    }
}

/// The opening tag of a paragraph survives in a text that repeats the
/// original text up to the paragraph's closing tag.
proof fn lemma_stable_open(s: Seq<u8>, t: Seq<u8>, p: int, i: int, k: int, m: int)
    requires
        0 <= p <= i,
        i + 4 <= k < m,
        m + 6 <= s.len(),
        occurs_at(s, i, open_tag()),
        occurs_at(s, k, tag_end()),
        forall|j: int| i + 4 <= j < k ==> !occurs_at(s, j, tag_end()),
        forall|j: int| p <= j < i ==> !occurs_at(s, j, open_tag()),
        m - p <= t.len(),
        forall|x: int| 0 <= x < m - p ==> #[trigger] s[p + x] == t[0 + x],
    ensures
        forall|j: int| 0 <= j < i - p ==> paragraph_at(t, j) is None,
        occurs_at(t, i - p, open_tag()),
        find_from(t, tag_end(), i - p + 4) == Some(k - p),
{
    let shared = m - p;
    assert forall|j: int| 0 <= j < i - p implies paragraph_at(t, j) is None by {
        lemma_occurs_agree(s, t, p, 0, shared, j, open_tag());
    }
    lemma_occurs_agree(s, t, p, 0, shared, i - p, open_tag());
    assert forall|j: int| i - p + 4 <= j <= k - p implies occurs_at(t, j, tag_end()) == occurs_at(
        s,
        p + j,
        tag_end(),
    ) by {
        lemma_occurs_agree(s, t, p, 0, shared, j, tag_end());
    }
    lemma_find_from_is(t, tag_end(), i - p + 4, Some(k - p));
}

/// The closing tag that follows an injected space run is the first one
/// after the original content.
proof fn lemma_stable_close_injected(t: Seq<u8>, from: int, shared: int)
    requires
        0 <= from <= shared,
        shared + 51 <= t.len(),
        forall|x: int| 0 <= x < 51 ==> #[trigger] t[shared + x] == (space_run() + close_tag())[x],
        forall|j: int| from <= j && j + 6 <= shared ==> !occurs_at(t, j, close_tag()),
    ensures
        find_from(t, close_tag(), from) == Some(shared + 45),
{
    lemma_run_then_close();
    let w = space_run() + close_tag();
    assert forall|j: int| from <= j < shared + 45 implies !occurs_at(t, j, close_tag()) by {
        if j + 6 <= shared {
        } else if j < shared {
            let e = shared - j;
            assert(t[shared + 0] == w[0]);
            assert(close_tag()[e] != 60u8);
            assert(t[j + e] != close_tag()[e]);
        } else {
            let r0 = j - shared;
            assert(t[shared + (r0 + 3)] == w[r0 + 3]);
            assert(t[shared + (r0 + 4)] == w[r0 + 4]);
            assert(close_tag()[3] == 58u8);
            assert(close_tag()[4] == 112u8);
        }
    }
    assert forall|d: int| #![trigger close_tag()[d]] 0 <= d < 6 implies t[shared + 45 + d]
        == close_tag()[d] by {
        assert(t[shared + (45 + d)] == w[45 + d]);
    }
    lemma_find_from_is(t, close_tag(), from, Some(shared + 45));
}

/// One paragraph of the fixed text, seen again by the scanner: it is found
/// at the same place and left unchanged.
#[verifier::rlimit(40)]
proof fn lemma_fixed_paragraph_is_stable(s: Seq<u8>, p: int, i: int, k: int, m: int, t2: Seq<u8>)
    requires
        0 <= p,
        next_paragraph(s, p) == Some((i, k, m)),
    ensures
        ({
            let g = s.subrange(p, i);
            let r = fixed_paragraph(s, i, k, m);
            let t = g + r + t2;
            let a = i - p;
            let c = a + r.len() - 6;
            &&& next_paragraph(t, 0) == Some((a, a + (k - i), c))
            &&& fixed_paragraph(t, a, a + (k - i), c) == r
            &&& c + 6 == g.len() + r.len()
            &&& has_run(t.subrange(a + (k - i) + 1, c))
        }),
{
    lemma_next_paragraph(s, p);
    lemma_paragraph_at(s, i);
    lemma_no_open_before(s, p);
    lemma_run_then_close();
    let g = s.subrange(p, i);
    let r = fixed_paragraph(s, i, k, m);
    let t = g + r + t2;
    let a = i - p;
    let c = a + r.len() - 6;
    let injected = !has_run(s.subrange(k + 1, m));
    let shared = m - p;
    let w = space_run() + close_tag();
    let kept = if injected { shared } else { shared + 6 };
    assert(r.len() == m - i + 6 + (if injected { 45int } else { 0int }));
    assert forall|x: int| 0 <= x < kept implies #[trigger] s[p + x] == t[0 + x] by {
        if x < a {
            assert(t[x] == g[x]);
        } else {
            assert(t[x] == r[x - a]);
        }
    }
    lemma_stable_open(s, t, p, i, k, m);
    let from = a + (k - i) + 1;
    if !injected {
        assert forall|j: int| from <= j < c implies !occurs_at(t, j, close_tag()) by {
            lemma_occurs_agree(s, t, p, 0, kept, j, close_tag());
        }
        lemma_occurs_agree(s, t, p, 0, kept, c, close_tag());
        lemma_find_from_is(t, close_tag(), from, Some(c));
    } else {
        assert forall|x: int| 0 <= x < 51 implies #[trigger] t[shared + x] == w[x] by {
            assert(t[shared + x] == r[shared + x - a]);
        }
        assert forall|j: int| from <= j && j + 6 <= shared implies !occurs_at(t, j, close_tag()) by {
            lemma_occurs_agree(s, t, p, 0, kept, j, close_tag());
        }
        lemma_stable_close_injected(t, from, shared);
    }
    assert(paragraph_at(t, a) == Some((a + (k - i), c)));
    lemma_next_paragraph_is(t, 0, Some((a, a + (k - i), c)));
    let content = t.subrange(from, c);
    if !injected {
        assert(content =~= s.subrange(k + 1, m));
        assert(t.subrange(a, c + 6) =~= r);
    } else {
        assert forall|d: int| #![trigger run_marker(0)[d]] 0 <= d < 5 implies content[(m - k - 1)
            + d] == run_marker(0)[d] by {
            assert(content[(m - k - 1) + d] == t[shared + d]);
            assert(t[shared + d] == w[d]);
        }
        assert(occurs_at(content, m - k - 1, run_marker(0)));
        assert(contains_lit(content, run_marker(0)));
        assert(t.subrange(a, c + 6) =~= r);
    }
}

/// Fixing the text fixed from `p` changes nothing more.
proof fn lemma_fix_from_idempotent(s: Seq<u8>, p: int)
    requires
        0 <= p <= s.len(),
    ensures
        fix_from(fix_from(s, p), 0) == fix_from(s, p),
    decreases s.len() - p,
{
    let t = fix_from(s, p);
    lemma_next_paragraph(s, p);
    match next_paragraph(s, p) {
        None => {
            lemma_fix_from_suffix(s, p, p);
        },
        Some((i, k, m)) => {
            lemma_paragraph_at(s, i);
            let t2 = fix_from(s, m + 6);
            lemma_fix_from_idempotent(s, m + 6);
            lemma_fixed_paragraph_is_stable(s, p, i, k, m, t2);
            let g = s.subrange(p, i);
            let r = fixed_paragraph(s, i, k, m);
            let a = i - p;
            let c = a + r.len() - 6;
            assert(t == g + r + t2);
            lemma_fix_from_suffix(t, c + 6, c + 6);
            assert(t.subrange(c + 6, t.len() as int) =~= t2);
            assert(t.subrange(0, a) =~= g);
            assert(fix_from(t, 0) == t.subrange(0, a) + fixed_paragraph(t, a, a + (k - i), c)
                + fix_from(t, c + 6));
            assert(fix_from(t, 0) =~= t);
        },
    }
}

/// Checking paragraphs from `q` only looks at the text from `p <= q` on.
proof fn lemma_runs_suffix(s: Seq<u8>, p: int, q: int)
    requires
        0 <= p <= q <= s.len(),
    ensures
        paragraphs_have_runs(s, q) == paragraphs_have_runs(s.subrange(p, s.len() as int), q - p),
    decreases s.len() - q,
{
    let u = s.subrange(p, s.len() as int);
    lemma_next_shift(s, p, q);
    match next_paragraph(s, q) {
        None => {},
        Some((i, k, m)) => {
            if q <= i && i < k && k < m && m + 6 <= s.len() {
                lemma_runs_suffix(s, p, m + 6);
                assert(u.subrange(k - p + 1, m - p) =~= s.subrange(k + 1, m));
            }
        },
    }
}

/// After fixing from `p`, every paragraph holds a run.
proof fn lemma_fix_from_has_runs(s: Seq<u8>, p: int)
    requires
        0 <= p <= s.len(),
    ensures
        paragraphs_have_runs(fix_from(s, p), 0),
    decreases s.len() - p,
{
    let t = fix_from(s, p);
    lemma_next_paragraph(s, p);
    match next_paragraph(s, p) {
        None => {
            lemma_fix_from_suffix(s, p, p);
            lemma_runs_suffix(s, p, p);
            lemma_no_paragraph_left(s, p);
            assert(s.subrange(p, s.len() as int) =~= t);
        },
        Some((i, k, m)) => {
            lemma_paragraph_at(s, i);
            let t2 = fix_from(s, m + 6);
            lemma_fix_from_has_runs(s, m + 6);
            lemma_fixed_paragraph_is_stable(s, p, i, k, m, t2);
            let g = s.subrange(p, i);
            let r = fixed_paragraph(s, i, k, m);
            let a = i - p;
            let c = a + r.len() - 6;
            assert(t == g + r + t2);
            lemma_runs_suffix(t, c + 6, c + 6);
            assert(t.subrange(c + 6, t.len() as int) =~= t2);
        },
    }
}

/// Without a paragraph from `p` on, there is none without a run.
proof fn lemma_no_paragraph_left(s: Seq<u8>, p: int)
    requires
        0 <= p <= s.len(),
        next_paragraph(s, p) is None,
    ensures
        paragraphs_have_runs(s, p),
{
}

/// Law: after the fix every paragraph of the document holds a run, so no
/// paragraph is left empty for a converter to drop.
pub proof fn law_fixed_paragraphs_have_runs(xml: Seq<u8>)
    ensures
        paragraphs_have_runs(fixed_xml(xml), 0),
{
    lemma_fix_from_has_runs(xml, 0);
}

/// Law: fixing a document twice gives the same bytes as fixing it once.
pub proof fn law_fix_is_idempotent(xml: Seq<u8>)
    ensures
        fixed_xml(fixed_xml(xml)) == fixed_xml(xml),
{
    lemma_fix_from_idempotent(xml, 0);
}

// ───────────────────────── the fix only inserts runs ─────────────────────────

/// `t[p ..]` with every space run taken out, scanning left to right.
pub open spec fn without_runs_from(t: Seq<u8>, p: int) -> Seq<u8>
    decreases t.len() - p,
{
    if p < 0 || p >= t.len() {
        if 0 <= p <= t.len() {
            t.subrange(p, t.len() as int)
        } else {
            Seq::empty()
        }
    } else if occurs_at(t, p, space_run()) {
        without_runs_from(t, p + 45)
    } else {
        seq![t[p]] + without_runs_from(t, p + 1)
    }
}

/// The text with every space run taken out.
pub open spec fn without_runs(t: Seq<u8>) -> Seq<u8> {
    without_runs_from(t, 0)
}

/// Segments joined with a space run between each two.
pub open spec fn interleave_runs(segs: Seq<Seq<u8>>) -> Seq<u8>
    decreases segs.len(),
{
    if segs.len() == 0 {
        Seq::empty()
    } else if segs.len() == 1 {
        segs[0]
    } else {
        segs[0] + space_run() + interleave_runs(segs.drop_first())
    }
}

/// Segments joined without anything between them.
pub open spec fn joined(segs: Seq<Seq<u8>>) -> Seq<u8>
    decreases segs.len(),
{
    if segs.len() == 0 {
        Seq::empty()
    } else {
        segs[0] + joined(segs.drop_first())
    }
}

/// The space run overlaps itself nowhere: no proper suffix of it is a
/// prefix of it.
proof fn lemma_run_no_border(k: int)
    requires
        1 <= k < 45,
    ensures
        exists|d: int| k <= d < 45 && #[trigger] space_run()[d] != space_run()[d - k],
{
    let r = space_run();
    if k == 5 {
        assert(r[8] != r[3]);
    } else if k == 33 {
        assert(r[34] != r[1]);
    } else if k == 39 {
        assert(r[40] != r[1]);
    } else {
        assert(r[k] != r[0]);
    }
}

/// No space run starts in `t` in `[p, q)`: the scan copies those bytes.
proof fn lemma_without_runs_skip(t: Seq<u8>, p: int, q: int)
    requires
        0 <= p <= q <= t.len(),
        forall|j: int| p <= j < q ==> !occurs_at(t, j, space_run()),
    ensures
        without_runs_from(t, p) == t.subrange(p, q) + without_runs_from(t, q),
    decreases q - p,
{
    if p < q {
        lemma_without_runs_skip(t, p + 1, q);
        assert(t.subrange(p, q) =~= seq![t[p]] + t.subrange(p + 1, q));
    } else {
        assert(t.subrange(p, q) =~= Seq::<u8>::empty());
    }
}

/// Scanning `a + b` from the end of `a` is scanning `b`.
proof fn lemma_without_runs_shift(a: Seq<u8>, b: Seq<u8>, x: int)
    requires
        0 <= x <= b.len(),
    ensures
        without_runs_from(a + b, a.len() + x) == without_runs_from(b, x),
    decreases b.len() - x,
{
    let t = a + b;
    if x < b.len() {
        assert(occurs_at(t, a.len() + x, space_run()) == occurs_at(b, x, space_run())) by {
            if occurs_at(b, x, space_run()) {
                assert forall|d: int| #![trigger space_run()[d]] 0 <= d < space_run().len() implies t[a.len() + x + d]
                    == space_run()[d] by {
                    assert(t[a.len() + x + d] == b[x + d]);
                }
            }
            if occurs_at(t, a.len() + x, space_run()) {
                assert forall|d: int| #![trigger space_run()[d]] 0 <= d < space_run().len() implies b[x + d]
                    == space_run()[d] by {
                    assert(t[a.len() + x + d] == b[x + d]);
                }
            }
        }
        if occurs_at(b, x, space_run()) {
            lemma_without_runs_shift(a, b, x + 45);
        } else {
            lemma_without_runs_shift(a, b, x + 1);
            assert(t[a.len() + x] == b[x]);
        }
    } else {
        assert(t.subrange(t.len() as int, t.len() as int) =~= b.subrange(x, b.len() as int));
    }
}

/// Taking the runs out of segments joined by runs gives the segments
/// joined, when the joined segments hold no run.
proof fn lemma_without_interleaved(segs: Seq<Seq<u8>>)
    requires
        !contains_lit(joined(segs), space_run()),
    ensures
        without_runs(interleave_runs(segs)) == joined(segs),
    decreases segs.len(),
{
    let r = space_run();
    if segs.len() == 0 {
    } else if segs.len() == 1 {
        let a = segs[0];
        assert(joined(segs) =~= a + joined(segs.drop_first()));
        assert(joined(segs.drop_first()) =~= Seq::<u8>::empty());
        assert(joined(segs) =~= a);
        assert forall|j: int| 0 <= j < a.len() implies !occurs_at(a, j, r) by {
            if occurs_at(a, j, r) {
                assert(contains_lit(joined(segs), r));
            }
        }
        lemma_without_runs_skip(a, 0, a.len() as int);
        assert(a.subrange(0, a.len() as int) =~= a);
    } else {
        let a = segs[0];
        let rest = segs.drop_first();
        let tr = interleave_runs(rest);
        let t = interleave_runs(segs);
        let whole = joined(segs);
        assert(t == a + r + tr);
        assert(whole == a + joined(rest));
        assert(!contains_lit(joined(rest), r)) by {
            if contains_lit(joined(rest), r) {
                let j = choose|j: int| occurs_at(joined(rest), j, r);
                assert forall|d: int| #![trigger r[d]] 0 <= d < r.len() implies whole[a.len() + j + d] == r[d] by {
                    assert(whole[a.len() + j + d] == joined(rest)[j + d]);
                }
                assert(occurs_at(whole, a.len() + j, r));
            }
        }
        lemma_without_interleaved(rest);
        let la = a.len() as int;
        assert forall|d: int| 0 <= d < 45 implies #[trigger] t[la + d] == r[d] by {
            assert(t[la + d] == (a + r)[la + d]);
        }
        assert forall|j: int| 0 <= j < la implies !occurs_at(t, j, r) by {
            if occurs_at(t, j, r) {
                if j + 45 <= la {
                    assert forall|d: int| #![trigger r[d]] 0 <= d < r.len() implies whole[j + d] == r[d] by {
                        assert(t[j + d] == a[j + d]);
                        assert(whole[j + d] == a[j + d]);
                    }
                    assert(occurs_at(whole, j, r));
                } else {
                    let k = la - j;
                    lemma_run_no_border(k);
                    let d = choose|d: int| k <= d < 45 && #[trigger] r[d] != r[d - k];
                    assert(t[j + d] == r[d]);
                    assert(t[la + (d - k)] == r[d - k]);
                }
            }
        }
        assert(occurs_at(t, la, r));
        lemma_without_runs_skip(t, 0, la);
        assert(t.subrange(0, la) =~= a);
        assert(t =~= (a + r) + tr);
        lemma_without_runs_shift(a + r, tr, 0);
    }
}

proof fn lemma_joined_prefix(a: Seq<u8>, segs: Seq<Seq<u8>>)
    requires
        segs.len() > 0,
    ensures
        interleave_runs(seq![a + segs[0]] + segs.drop_first()) == a + interleave_runs(segs),
        joined(seq![a + segs[0]] + segs.drop_first()) == a + joined(segs),
{
    let n = seq![a + segs[0]] + segs.drop_first();
    assert(n.drop_first() =~= segs.drop_first());
    assert(n[0] == a + segs[0]);
    if segs.len() == 1 {
        assert(interleave_runs(n) == a + segs[0]);
    } else {
        assert(interleave_runs(n) =~= a + interleave_runs(segs));
    }
    assert(joined(n) =~= a + joined(segs));
}

/// One step of the fix from `p`, where the scanner finds the paragraph
/// `s[i .. m + 6]`.
proof fn lemma_fix_step(s: Seq<u8>, p: int, i: int, k: int, m: int)
    requires
        0 <= p,
        next_paragraph(s, p) == Some((i, k, m)),
        p <= i < k < m,
        m + 6 <= s.len(),
    ensures
        s.subrange(m, m + 6) == close_tag(),
        has_run(s.subrange(k + 1, m)) ==> fix_from(s, p) == s.subrange(p, m + 6) + fix_from(
            s,
            m + 6,
        ),
        !has_run(s.subrange(k + 1, m)) ==> fix_from(s, p) == s.subrange(p, m) + space_run() + (
        close_tag() + fix_from(s, m + 6)),
{
    lemma_next_paragraph(s, p);
    lemma_paragraph_at(s, i);
    let tail = s.subrange(m, m + 6);
    assert forall|d: int| 0 <= d < 6 implies #[trigger] tail[d] == close_tag()[d] by {
        assert(tail[d] == s[m + d]);
    }
    assert(tail =~= close_tag());
    if has_run(s.subrange(k + 1, m)) {
        assert(s.subrange(p, i) + s.subrange(i, m + 6) =~= s.subrange(p, m + 6));
    } else {
        assert(s.subrange(p, i) + (s.subrange(i, m) + space_run() + close_tag()) =~= s.subrange(
            p,
            m,
        ) + space_run() + close_tag());
    }
}

/// The fix from `p` is `s[p ..]` cut into segments with a space run put
/// between each two.
proof fn lemma_fix_interleaves(s: Seq<u8>, p: int) -> (segs: Seq<Seq<u8>>)
    requires
        0 <= p <= s.len(),
    ensures
        segs.len() > 0,
        fix_from(s, p) == interleave_runs(segs),
        joined(segs) == s.subrange(p, s.len() as int),
    decreases s.len() - p,
{
    let whole = s.subrange(p, s.len() as int);
    let single = seq![whole];
    assert(single.drop_first() =~= Seq::<Seq<u8>>::empty());
    assert(joined(single.drop_first()) =~= Seq::<u8>::empty());
    assert(joined(single) =~= whole);
    match next_paragraph(s, p) {
        None => single,
        Some((i, k, m)) => if p <= i && i < k && k < m && m + 6 <= s.len() {
            let segs2 = lemma_fix_interleaves(s, m + 6);
            let rest_text = s.subrange(m + 6, s.len() as int);
            lemma_fix_step(s, p, i, k, m);
            if has_run(s.subrange(k + 1, m)) {
                let pre = s.subrange(p, m + 6);
                lemma_joined_prefix(pre, segs2);
                assert(pre + rest_text =~= whole);
                seq![pre + segs2[0]] + segs2.drop_first()
            } else {
                let first = s.subrange(p, m);
                let tail = s.subrange(m, m + 6);
                lemma_joined_prefix(tail, segs2);
                let rest = seq![tail + segs2[0]] + segs2.drop_first();
                let segs = seq![first] + rest;
                assert(segs.drop_first() =~= rest);
                assert(segs[0] == first);
                assert(interleave_runs(segs) == first + space_run() + interleave_runs(rest));
                assert(joined(segs) == first + joined(rest));
                assert(first + (tail + rest_text) =~= whole);
                segs
            }
        } else {
            single
        },
    }
}

/// Law: the fix only inserts space runs: taking them out of the fixed
/// text gives the text back, for a text that held none.
pub proof fn law_fix_only_inserts_runs(xml: Seq<u8>)
    requires
        !contains_lit(xml, space_run()),
    ensures
        without_runs(fixed_xml(xml)) == xml,
{
    let segs = lemma_fix_interleaves(xml, 0);
    assert(xml.subrange(0, xml.len() as int) =~= xml);
    lemma_without_interleaved(segs);
}

} // verus!
