//! The word-boundary-aware character n-gram tokenizer.
//!
//! A text is lowercased and its whitespace runs collapsed into single `'_'`
//! boundary markers, with one more marker at each end, so `"abc de"`
//! becomes `_abc_de_`.  Every window of `n` consecutive characters of that
//! padded sequence is a candidate token; a window whose interior (all but
//! its first and last character) contains a boundary marker would straddle
//! two words and is rejected.  Accepted windows, left to right, are the
//! document's tokens.

use vstd::prelude::*;
use crate::chars::char_is_space;
use crate::chars::is_space;
use crate::chars::lower_chars;
use crate::chars::push_char;
use crate::chars::to_lower;

verus! {

/// One step of the padding scan: state is the body built so far and whether
/// a word boundary is pending (whitespace seen after at least one word).
pub open spec fn pad_step(acc: Seq<char>, pending: bool, c: char) -> (Seq<char>, bool) {
    if char_is_space(c) {
        (acc, pending || acc.len() > 0)
    } else if pending {
        (acc.push('_') + lower_chars(c), false)
    } else {
        (acc + lower_chars(c), false)
    }
}

/// The padding scan over a whole text: lowercased words joined by single
/// `'_'` markers, with no marker at either end.
pub open spec fn pad_scan(s: Seq<char>) -> (Seq<char>, bool)
    decreases s.len(),
{
    if s.len() == 0 {
        (Seq::empty(), false)
    } else {
        let prev = pad_scan(s.drop_last());
        pad_step(prev.0, prev.1, s.last())
    }
}

/// The padded character sequence of a text: `'_'`, the joined lowercased
/// words, `'_'`.
pub open spec fn padded_chars(s: Seq<char>) -> Seq<char> {
    seq!['_'] + pad_scan(s).0 + seq!['_']
}

/// Whether a window is free of boundary markers in its interior, i.e. does
/// not straddle two words.  Windows of length at most two have no interior.
pub open spec fn interior_clear(w: Seq<char>) -> bool {
    forall|j: int| 1 <= j < w.len() - 1 ==> w[j] != '_'
}

/// The accepted width-`n` windows of `p` whose start lies before `i`, in
/// order of their start.
pub open spec fn windows_upto(p: Seq<char>, n: int, i: int) -> Seq<Seq<char>>
    decreases i,
{
    if i <= 0 {
        Seq::empty()
    } else {
        let w = p.subrange(i - 1, i - 1 + n);
        windows_upto(p, n, i - 1) + (if interior_clear(w) {
            seq![w]
        } else {
            Seq::<Seq<char>>::empty()
        })
    }
}

/// All accepted width-`n` windows of `p`; empty when `p` is shorter than
/// `n`.
pub open spec fn ngram_list(p: Seq<char>, n: int) -> Seq<Seq<char>> {
    if 1 <= n <= p.len() {
        windows_upto(p, n, p.len() - n + 1)
    } else {
        Seq::empty()
    }
}

/// The n-gram tokens of a text: the accepted windows of its padded
/// character sequence.
pub open spec fn doc_tokens(text: Seq<char>, n: int) -> Seq<Seq<char>> {
    ngram_list(padded_chars(text), n)
}

/// At most one window starts before each position.
pub proof fn lemma_windows_len(p: Seq<char>, n: int, i: int)
    requires
        i >= 0,
    ensures
        windows_upto(p, n, i).len() <= i,
    decreases i,
{
    if i > 0 {
        lemma_windows_len(p, n, i - 1);
    }
}

/// A text has at most as many tokens as padded characters.
pub proof fn lemma_doc_tokens_len(text: Seq<char>, n: int)
    requires
        n >= 1,
    ensures
        doc_tokens(text, n).len() <= padded_chars(text).len(),
{
    let p = padded_chars(text);
    if 1 <= n <= p.len() {
        lemma_windows_len(p, n, p.len() - n + 1);
    }
}

/// The padded length of a text, for callers that must bound it before
/// fitting or querying.
#[verifier::loop_isolation(false)]
pub fn padded_len(text: &str) -> (r: usize)
    ensures
        r == padded_chars(text@).len(),
{
    let p = pad_text(text);
    p.len()
}

/// The views of a list of token strings.
pub open spec fn tokens_view(ts: Seq<String>) -> Seq<Seq<char>> {
    ts.map_values(|t: String| t@)
}

/// The tokens joined by single spaces.
pub open spec fn join_tokens(ts: Seq<Seq<char>>) -> Seq<char>
    decreases ts.len(),
{
    if ts.len() == 0 {
        Seq::empty()
    } else if ts.len() == 1 {
        ts[0]
    } else {
        join_tokens(ts.drop_last()) + seq![' '] + ts.last()
    }
}

/// Appends all characters of `src` to `dst`.
#[verifier::loop_isolation(false)]
fn push_all(dst: &mut Vec<char>, src: &Vec<char>)
    ensures
        final(dst)@ == old(dst)@ + src@,
{
    let mut j: usize = 0;
    while j < src.len()
        invariant
            j <= src.len(),
            dst@ == old(dst)@ + src@.take(j as int),
        decreases src.len() - j,
    {
        dst.push(src[j]);
        proof {
            assert(old(dst)@ + src@.take(j as int + 1) =~= (old(dst)@ + src@.take(j as int)).push(
                src@[j as int],
            ));
        }
        j = j + 1;
    }
    proof {
        assert(src@.take(src@.len() as int) =~= src@);
    }
}

/// The padded character sequence of a text, built by one scan.
#[verifier::loop_isolation(false)]
pub fn pad_text(text: &str) -> (r: Vec<char>)
    ensures
        r@ == padded_chars(text@),
{
    let n = text.unicode_len();
    let mut body: Vec<char> = Vec::new();
    let mut pending = false;
    let mut i: usize = 0;
    while i < n
        invariant
            i <= n,
            n == text@.len(),
            body@ == pad_scan(text@.take(i as int)).0,
            pending == pad_scan(text@.take(i as int)).1,
        decreases n - i,
    {
        let c = text.get_char(i);
        proof {
            assert(text@.take(i as int + 1).drop_last() =~= text@.take(i as int));
            assert(text@.take(i as int + 1).last() == text@[i as int]);
        }
        if is_space(c) {
            if body.len() > 0 {
                pending = true;
            }
        } else {
            if pending {
                body.push('_');
                pending = false;
            }
            let low = to_lower(c);
            push_all(&mut body, &low);
        }
        i = i + 1;
    }
    proof {
        assert(text@.take(n as int) =~= text@);
    }
    let mut out: Vec<char> = Vec::new();
    out.push('_');
    push_all(&mut out, &body);
    out.push('_');
    proof {
        assert(out@ =~= padded_chars(text@));
    }
    out
}

/// The n-gram tokens of a text, in order, as strings.
#[verifier::loop_isolation(false)]
pub fn ngram_tokens(text: &str, n: usize) -> (r: Vec<String>)
    requires
        n >= 1,
    ensures
        tokens_view(r@) == doc_tokens(text@, n as int),
{
    let p = pad_text(text);
    let mut r: Vec<String> = Vec::new();
    if p.len() < n {
        proof {
            assert(tokens_view(r@) =~= doc_tokens(text@, n as int));
        }
        return r;
    }
    let last_start = p.len() - n;
    let mut i: usize = 0;
    while i <= last_start
        invariant
            last_start == p@.len() - n,
            n >= 1,
            i <= last_start + 1,
            p@ == padded_chars(text@),
            tokens_view(r@) == windows_upto(p@, n as int, i as int),
        decreases last_start + 1 - i,
    {
        let ghost w = p@.subrange(i as int, i as int + n);
        // Reject a window with a boundary marker in its interior.
        let mut ok = true;
        let mut t: usize = 1;
        while t + 1 < n
            invariant
                1 <= t,
                t <= n - 1 || t == 1,
                n >= 1,
                i + n <= p@.len(),
                w == p@.subrange(i as int, i as int + n),
                ok == (forall|j: int| 1 <= j < t ==> w[j] != '_'),
            decreases n - t,
        {
            let is_marker = p[i + t] == '_';
            proof {
                assert(w[t as int] == p@[i as int + t as int]);
            }
            if is_marker {
                ok = false;
            }
            t = t + 1;
        }
        proof {
            assert(w.len() == n);
            if n >= 2 {
                assert(t == n - 1);
                assert(ok == interior_clear(w));
            } else {
                assert(interior_clear(w));
                assert(ok);
            }
        }
        if ok {
            let mut tok = String::new();
            let mut t2: usize = 0;
            while t2 < n
                invariant
                    t2 <= n,
                    i + n <= p@.len(),
                    w == p@.subrange(i as int, i as int + n),
                    tok@ == w.take(t2 as int),
                decreases n - t2,
            {
                push_char(&mut tok, p[i + t2]);
                proof {
                    assert(w.take(t2 as int + 1) =~= w.take(t2 as int).push(w[t2 as int]));
                }
                t2 = t2 + 1;
            }
            proof {
                assert(tok@ =~= w);
            }
            r.push(tok);
            proof {
                assert(tokens_view(r@) =~= windows_upto(p@, n as int, i as int + 1));
            }
        } else {
            proof {
                assert(tokens_view(r@) =~= windows_upto(p@, n as int, i as int + 1));
            }
        }
        i = i + 1;
    }
    proof {
        assert(ngram_list(p@, n as int) == windows_upto(p@, n as int, last_start as int + 1));
    }
    r
}

/// The space-joined n-gram token stream of a text.
#[verifier::loop_isolation(false)]
pub fn joined_ngrams(text: &str, n: usize) -> (r: String)
    requires
        n >= 1,
    ensures
        r@ == join_tokens(doc_tokens(text@, n as int)),
{
    let toks = ngram_tokens(text, n);
    let mut out = String::new();
    let mut i: usize = 0;
    while i < toks.len()
        invariant
            i <= toks@.len(),
            tokens_view(toks@) == doc_tokens(text@, n as int),
            out@ == join_tokens(tokens_view(toks@).take(i as int)),
        decreases toks@.len() - i,
    {
        if i > 0 {
            out.append(" ");
        }
        out.append(toks[i].as_str());
        proof {
            reveal_strlit(" ");
            let tv = tokens_view(toks@);
            assert(toks@[i as int]@ == tv[i as int]);
            assert(tv.take(i as int + 1).drop_last() =~= tv.take(i as int));
            assert(tv.take(i as int + 1).last() == tv[i as int]);
            if i == 0 {
                assert(tv.take(1)[0] == tv[0]);
                assert(out@ =~= join_tokens(tv.take(1)));
            } else {
                assert(" "@ =~= seq![' ']);
                assert(out@ =~= join_tokens(tv.take(i as int)) + seq![' '] + tv[i as int]);
                assert(out@ =~= join_tokens(tv.take(i as int + 1)));
            }
        }
        i = i + 1;
    }
    proof {
        assert(tokens_view(toks@).take(toks@.len() as int) =~= tokens_view(toks@));
    }
    out
}

} // verus!
