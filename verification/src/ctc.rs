//! CTC decoding of recognition output: index 0 is the blank, index `c > 0`
//! stands for `keys[c - 1]`.  Repeated indices collapse, blanks vanish.
//! The caller picks the most probable index of every time step; this module
//! decides which steps yield a character.
use vstd::prelude::*;

verus! {

/// The index of the step before `t` (the blank before the first step).
pub open spec fn prev_index(best: Seq<usize>, t: int) -> usize {
    if t == 0 {
        0
    } else {
        best[t - 1]
    }
}

/// Step `t` yields a character: it is not the blank, differs from the step
/// before, and names a key that exists (other indices are dropped).
pub open spec fn step_kept(best: Seq<usize>, keys_len: nat, t: int) -> bool {
    &&& best[t] != 0
    &&& best[t] != prev_index(best, t)
    &&& best[t] - 1 < keys_len
}

/// The decoded text.
pub open spec fn ctc_text(best: Seq<usize>, keys: Seq<Seq<char>>) -> Seq<char>
    decreases best.len(),
{
    if best.len() == 0 {
        Seq::empty()
    } else {
        let t = best.len() - 1;
        ctc_text(best.drop_last(), keys) + (if step_kept(best, keys.len(), t) {
            keys[best[t] - 1]
        } else {
            Seq::empty()
        })
    }
}

/// The steps that yield a character, in order.
pub open spec fn ctc_kept(best: Seq<usize>, keys_len: nat) -> Seq<usize>
    decreases best.len(),
{
    if best.len() == 0 {
        Seq::empty()
    } else {
        let t = best.len() - 1;
        ctc_kept(best.drop_last(), keys_len) + (if step_kept(best, keys_len, t) {
            seq![t as usize]
        } else {
            Seq::empty()
        })
    }
}

/// The keys as plain character sequences.
pub open spec fn keys_view(keys: Seq<String>) -> Seq<Seq<char>> {
    keys.map_values(|k: String| k@)
}

/// A decoded line: the text and the steps whose probabilities make up its
/// score.
pub struct CtcDecoded {
    pub text: String,
    pub kept: Vec<usize>,
}

/// The kept-step rule depends only on the prefix up to `t`.
proof fn lemma_step_kept_prefix(best: Seq<usize>, n: int, keys_len: nat, t: int)
    requires
        0 <= t < n <= best.len(),
    ensures
        step_kept(best.take(n), keys_len, t) == step_kept(best, keys_len, t),
{
    assert(best.take(n)[t] == best[t]);
    if t > 0 {
        assert(best.take(n)[t - 1] == best[t - 1]);
    }
}

/// Decodes the most probable index of every time step.
pub fn ctc_decode_indices(best: &Vec<usize>, keys: &Vec<String>) -> (r: CtcDecoded)
    ensures
        r.text@ == ctc_text(best@, keys_view(keys@)),
        r.kept@ == ctc_kept(best@, keys@.len()),
{
    let mut text = String::new();
    let mut kept: Vec<usize> = Vec::new();
    let mut prev: usize = 0;
    let mut t: usize = 0;
    while t < best.len()
        invariant
            t <= best.len(),
            prev == prev_index(best@, t as int),
            text@ == ctc_text(best@.take(t as int), keys_view(keys@)),
            kept@ == ctc_kept(best@.take(t as int), keys@.len()),
        decreases best.len() - t,
    {
        let idx = best[t];
        let ghost pre = best@.take(t as int + 1);
        assert(pre.drop_last() =~= best@.take(t as int));
        proof {
            lemma_step_kept_prefix(best@, t as int + 1, keys@.len(), t as int);
        }
        if idx != 0 && idx != prev && idx - 1 < keys.len() {
            text.append(keys[idx - 1].as_str());
            kept.push(t);
        }
        prev = idx;
        t = t + 1;
    }
    assert(best@.take(best.len() as int) =~= best@);
    CtcDecoded { text, kept }
}

/// Repeating one time step changes no decision after it.
proof fn lemma_repeat_step(best: Seq<usize>, keys: Seq<Seq<char>>, i: int)
    requires
        0 <= i < best.len(),
    ensures
        ctc_text(best.insert(i + 1, best[i]), keys) == ctc_text(best, keys),
    decreases best.len(),
{
    let longer = best.insert(i + 1, best[i]);
    let n = best.len() as int;
    if i == n - 1 {
        assert(longer.drop_last() =~= best);
        assert(!step_kept(longer, keys.len(), n));
        assert(ctc_text(longer, keys) =~= ctc_text(best, keys));
    } else {
        lemma_repeat_step(best.drop_last(), keys, i);
        assert(longer.drop_last() =~= best.drop_last().insert(i + 1, best[i]));
        assert(longer[n] == best[n - 1]);
        assert(longer[n - 1] == best[n - 2]);
        assert(step_kept(longer, keys.len(), n) == step_kept(best, keys.len(), n - 1));
    }
}

/// Law: repeating any time step of the recognition output decodes to the
/// same text (repeats collapse).
pub proof fn law_repeats_collapse(best: Seq<usize>, keys: Seq<Seq<char>>, i: int)
    requires
        0 <= i < best.len(),
    ensures
        ctc_text(best.insert(i + 1, best[i]), keys) == ctc_text(best, keys),
{
    lemma_repeat_step(best, keys, i);
}

/// Law: a blank step changes nothing where it does not separate two equal
/// steps (blanks vanish; only between repeats do they keep both).
pub proof fn law_blank_vanishes(best: Seq<usize>, keys: Seq<Seq<char>>, j: int)
    requires
        0 <= j <= best.len(),
        j == best.len() || best[j] != prev_index(best, j),
    ensures
        ctc_text(best.insert(j, 0), keys) == ctc_text(best, keys),
    decreases best.len(),
{
    let longer = best.insert(j, 0);
    let n = best.len() as int;
    if j == n {
        assert(longer.drop_last() =~= best);
        assert(!step_kept(longer, keys.len(), n));
        assert(ctc_text(longer, keys) =~= ctc_text(best, keys));
    } else {
        let shorter = best.drop_last();
        if j < n - 1 {
            assert(shorter[j] == best[j]);
            if j > 0 {
                assert(shorter[j - 1] == best[j - 1]);
            }
        }
        law_blank_vanishes(shorter, keys, j);
        assert(longer.drop_last() =~= shorter.insert(j, 0));
        assert(longer[n] == best[n - 1]);
        if j < n - 1 {
            assert(longer[n - 1] == best[n - 2]);
        } else {
            assert(longer[n - 1] == 0);
        }
        assert(step_kept(longer, keys.len(), n) == step_kept(best, keys.len(), n - 1));
    }
}

/// Law: a blank step splits the decoding in two: what comes after it
/// decodes as if it stood alone.
pub proof fn law_blank_splits(p: Seq<usize>, q: Seq<usize>, keys: Seq<Seq<char>>)
    ensures
        ctc_text(p + seq![0usize] + q, keys) == ctc_text(p, keys) + ctc_text(q, keys),
    decreases q.len(),
{
    let pb = p + seq![0usize];
    if q.len() == 0 {
        assert(pb + q =~= pb);
        assert(pb.drop_last() =~= p);
        assert(!step_kept(pb, keys.len(), p.len() as int));
        assert(ctc_text(pb, keys) =~= ctc_text(p, keys) + ctc_text(q, keys));
    } else {
        let all = pb + q;
        let n = all.len() - 1;
        law_blank_splits(p, q.drop_last(), keys);
        assert(all.drop_last() =~= pb + q.drop_last());
        assert(all[n] == q.last());
        if q.len() == 1 {
            assert(all[n - 1] == 0);
        } else {
            assert(all[n - 1] == q[q.len() - 2]);
        }
        assert(step_kept(all, keys.len(), n) == step_kept(q, keys.len(), q.len() - 1));
        assert(ctc_text(all, keys) =~= ctc_text(p, keys) + ctc_text(q, keys));
    }
}

} // verus!
