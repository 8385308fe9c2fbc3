use vstd::prelude::*;
use crate::text::{
    all_clean, ascii_lower_char, ascii_lower_seq, ascii_seq, clean_word, is_ascii_char,
    is_ascii_ws_char, join_spaces, lower_token, lowercase_token, push_char, seq_views, word_char,
};

verus! {

// --------------------------------------------------------------------------
// Stripping periods and commas
// --------------------------------------------------------------------------

pub open spec fn keep_char(c: char) -> bool {
    c != '.' && c != ','
}

/// The text with every period and comma removed.
pub open spec fn strip_punct(s: Seq<char>) -> Seq<char>
    decreases s.len(),
{
    if s.len() == 0 {
        Seq::empty()
    } else if keep_char(s.last()) {
        strip_punct(s.drop_last()).push(s.last())
    } else {
        strip_punct(s.drop_last())
    }
}

fn strip_punct_exec(s: &str) -> (r: String)
    ensures
        r@ == strip_punct(s@),
{
    let n = s.unicode_len();
    let mut out = String::new();
    let mut i: usize = 0;
    while i < n
        invariant
            n == s@.len(),
            0 <= i <= n,
            out@ == strip_punct(s@.take(i as int)),
        decreases n - i,
    {
        let c = s.get_char(i);
        if c != '.' && c != ',' {
            push_char(&mut out, c);
        }
        proof {
            assert(s@.take(i + 1).drop_last() =~= s@.take(i as int));
            assert(s@.take(i + 1).last() == s@[i as int]);
        }
        i = i + 1;
    }
    proof {
        assert(s@.take(n as int) =~= s@);
    }
    out
}

// --------------------------------------------------------------------------
// Splitting on ASCII whitespace
// --------------------------------------------------------------------------

/// Splitting with an accumulated current token; tokens are maximal runs
/// of non-whitespace characters, so none is empty.
pub open spec fn split_rec(s: Seq<char>, cur: Seq<char>) -> Seq<Seq<char>>
    decreases s.len(),
{
    if s.len() == 0 {
        if cur.len() == 0 {
            Seq::empty()
        } else {
            seq![cur]
        }
    } else if is_ascii_ws_char(s[0]) {
        if cur.len() == 0 {
            split_rec(s.skip(1), Seq::empty())
        } else {
            seq![cur] + split_rec(s.skip(1), Seq::empty())
        }
    } else {
        split_rec(s.skip(1), cur.push(s[0]))
    }
}

/// The text split on runs of ASCII whitespace.
pub open spec fn split_ws(s: Seq<char>) -> Seq<Seq<char>> {
    split_rec(s, Seq::empty())
}

fn split_ws_exec(s: &str) -> (r: Vec<String>)
    ensures
        seq_views(r@) == split_ws(s@),
{
    let n = s.unicode_len();
    let mut out: Vec<String> = Vec::new();
    let mut cur = String::new();
    let mut i: usize = 0;
    proof {
        assert(s@.skip(0) =~= s@);
        assert(seq_views(out@) =~= Seq::<Seq<char>>::empty());
        assert(seq_views(out@) + split_rec(s@, Seq::empty()) =~= split_rec(s@, Seq::empty()));
    }
    while i < n
        invariant
            n == s@.len(),
            0 <= i <= n,
            split_ws(s@) == seq_views(out@) + split_rec(s@.skip(i as int), cur@),
        decreases n - i,
    {
        let c = s.get_char(i);
        let ghost prev_out = out@;
        let ghost prev_cur = cur@;
        proof {
            assert(s@.skip(i as int)[0] == s@[i as int]);
            assert(s@.skip(i as int).skip(1) =~= s@.skip(i + 1));
        }
        if c == ' ' || c == '\t' || c == '\n' || c == '\r' || c == '\x0c' {
            if cur.unicode_len() > 0 {
                out.push(cur);
                cur = String::new();
                proof {
                    assert(seq_views(out@) =~= seq_views(prev_out) + seq![prev_cur]);
                    let z = split_rec(s@.skip(i + 1), Seq::<char>::empty());
                    assert(split_rec(s@.skip(i as int), prev_cur) == seq![prev_cur] + z);
                    assert(seq_views(prev_out) + (seq![prev_cur] + z) =~= (seq_views(prev_out)
                        + seq![prev_cur]) + z);
                    assert(split_ws(s@) == seq_views(out@) + split_rec(s@.skip(i + 1), cur@));
                }
            } else {
                proof {
                    assert(cur@ =~= Seq::<char>::empty());
                    assert(split_rec(s@.skip(i as int), cur@) == split_rec(
                        s@.skip(i + 1),
                        cur@,
                    ));
                    assert(split_ws(s@) == seq_views(out@) + split_rec(s@.skip(i + 1), cur@));
                }
            }
        } else {
            push_char(&mut cur, c);
            proof {
                assert(cur@ == prev_cur.push(s@[i as int]));
                assert(split_rec(s@.skip(i as int), prev_cur) == split_rec(
                    s@.skip(i + 1),
                    cur@,
                ));
                assert(split_ws(s@) == seq_views(out@) + split_rec(s@.skip(i + 1), cur@));
            }
        }
        i = i + 1;
    }
    proof {
        assert(s@.skip(n as int) =~= Seq::<char>::empty());
    }
    if cur.unicode_len() > 0 {
        let ghost prev_out = out@;
        let ghost prev_cur = cur@;
        out.push(cur);
        proof {
            assert(seq_views(out@) =~= seq_views(prev_out) + seq![prev_cur]);
        }
    } else {
        proof {
            assert(cur@ =~= Seq::<char>::empty());
            assert(seq_views(out@) + split_rec(Seq::empty(), Seq::<char>::empty()) =~= seq_views(
                out@,
            ));
        }
    }
    out
}

// --------------------------------------------------------------------------
// Lexicographic order on words
// --------------------------------------------------------------------------

/// Strict lexicographic order on character sequences, by code point.
pub open spec fn lex_lt(a: Seq<char>, b: Seq<char>) -> bool
    decreases a.len(),
{
    if b.len() == 0 {
        false
    } else if a.len() == 0 {
        true
    } else if a[0] != b[0] {
        a[0] < b[0]
    } else {
        lex_lt(a.skip(1), b.skip(1))
    }
}

pub proof fn lemma_lex_irrefl(a: Seq<char>)
    ensures
        !lex_lt(a, a),
    decreases a.len(),
{
    if a.len() > 0 {
        lemma_lex_irrefl(a.skip(1));
    }
}

pub proof fn lemma_lex_connected(a: Seq<char>, b: Seq<char>)
    requires
        !lex_lt(a, b),
        !lex_lt(b, a),
    ensures
        a == b,
    decreases a.len(),
{
    if a.len() == 0 || b.len() == 0 {
        assert(a =~= b);
    } else {
        lemma_lex_connected(a.skip(1), b.skip(1));
        assert(a =~= seq![a[0]] + a.skip(1));
        assert(b =~= seq![b[0]] + b.skip(1));
    }
}

pub proof fn lemma_lex_trans(a: Seq<char>, b: Seq<char>, c: Seq<char>)
    requires
        lex_lt(a, b),
        lex_lt(b, c),
    ensures
        lex_lt(a, c),
    decreases a.len(),
{
    if a.len() > 0 && b.len() > 0 && c.len() > 0 && a[0] == b[0] && b[0] == c[0] {
        lemma_lex_trans(a.skip(1), b.skip(1), c.skip(1));
    }
}

/// If the first i characters agree, the order is decided by the rest.
proof fn lemma_lex_skip(a: Seq<char>, b: Seq<char>, i: int)
    requires
        0 <= i <= a.len(),
        i <= b.len(),
        forall|k: int| 0 <= k < i ==> a[k] == #[trigger] b[k],
    ensures
        lex_lt(a, b) == lex_lt(a.skip(i), b.skip(i)),
    decreases i,
{
    if i > 0 {
        assert(a.skip(1).skip(i - 1) =~= a.skip(i));
        assert(b.skip(1).skip(i - 1) =~= b.skip(i));
        lemma_lex_skip(a.skip(1), b.skip(1), i - 1);
    } else {
        assert(a.skip(0) =~= a);
        assert(b.skip(0) =~= b);
    }
}

/// Compare two words in lexicographic order by code point.
pub fn str_lt(a: &str, b: &str) -> (r: bool)
    ensures
        r == lex_lt(a@, b@),
{
    let na = a.unicode_len();
    let nb = b.unicode_len();
    let mut i: usize = 0;
    loop
        invariant
            na == a@.len(),
            nb == b@.len(),
            0 <= i <= na,
            i <= nb,
            forall|k: int| 0 <= k < i ==> a@[k] == #[trigger] b@[k],
        decreases na - i,
    {
        proof {
            lemma_lex_skip(a@, b@, i as int);
        }
        if i == na {
            return i < nb;
        }
        if i == nb {
            return false;
        }
        let ca = a.get_char(i);
        let cb = b.get_char(i);
        if ca != cb {
            return (ca as u32) < (cb as u32);
        }
        i = i + 1;
    }
}

/// Strictly ascending order between neighbours.
pub open spec fn strict_sorted(ws: Seq<Seq<char>>) -> bool {
    forall|i: int| 0 <= i < ws.len() - 1 ==> lex_lt(#[trigger] ws[i], ws[i + 1])
}

/// Neighbourwise order extends to any pair of positions.
pub proof fn lemma_sorted_global(ws: Seq<Seq<char>>, i: int, j: int)
    requires
        strict_sorted(ws),
        0 <= i < j < ws.len(),
    ensures
        lex_lt(ws[i], ws[j]),
    decreases j - i,
{
    if j > i + 1 {
        lemma_sorted_global(ws, i, j - 1);
        lemma_lex_trans(ws[i], ws[j - 1], ws[j]);
    }
}

/// A strictly sorted word list has no duplicates.
pub proof fn lemma_sorted_distinct(ws: Seq<Seq<char>>, i: int, j: int)
    requires
        strict_sorted(ws),
        0 <= i < ws.len(),
        0 <= j < ws.len(),
        i != j,
    ensures
        ws[i] != ws[j],
{
    if i < j {
        lemma_sorted_global(ws, i, j);
        lemma_lex_irrefl(ws[i]);
    } else {
        lemma_sorted_global(ws, j, i);
        lemma_lex_irrefl(ws[j]);
    }
}

/// A strictly sorted word list is determined by its set of words, so the
/// vocabulary of a text is unique: any two strictly sorted lists with the
/// same words are equal.
pub proof fn lemma_sorted_set_unique(a: Seq<Seq<char>>, b: Seq<Seq<char>>)
    requires
        strict_sorted(a),
        strict_sorted(b),
        forall|x: Seq<char>| a.contains(x) <==> b.contains(x),
    ensures
        a == b,
    decreases a.len(),
{
    if a.len() == 0 {
        if b.len() > 0 {
            assert(b.contains(b[0]));
            assert(a.contains(b[0]));
        }
        assert(a =~= b);
    } else if b.len() == 0 {
        assert(a.contains(a[0]));
        assert(b.contains(a[0]));
    } else {
        assert(a.contains(a[0]));
        assert(b.contains(b[0]));
        let j = choose|j: int| 0 <= j < b.len() && b[j] == a[0];
        let i = choose|i: int| 0 <= i < a.len() && a[i] == b[0];
        if a[0] != b[0] {
            assert(j > 0);
            assert(i > 0);
            lemma_sorted_global(b, 0, j);
            lemma_sorted_global(a, 0, i);
            lemma_lex_trans(a[0], b[0], a[0]);
            lemma_lex_irrefl(a[0]);
        }
        assert(a[0] == b[0]);
        let at = a.skip(1);
        let bt = b.skip(1);
        assert(strict_sorted(at)) by {
            assert forall|k: int| 0 <= k < at.len() - 1 implies lex_lt(
                #[trigger] at[k],
                at[k + 1],
            ) by {
                assert(at[k] == a[k + 1] && at[k + 1] == a[k + 2]);
            }
        }
        assert(strict_sorted(bt)) by {
            assert forall|k: int| 0 <= k < bt.len() - 1 implies lex_lt(
                #[trigger] bt[k],
                bt[k + 1],
            ) by {
                assert(bt[k] == b[k + 1] && bt[k + 1] == b[k + 2]);
            }
        }
        assert forall|x: Seq<char>| at.contains(x) <==> bt.contains(x) by {
            if at.contains(x) {
                let k = choose|k: int| 0 <= k < at.len() && at[k] == x;
                assert(a[k + 1] == x);
                assert(a.contains(x));
                assert(b.contains(x));
                let m = choose|m: int| 0 <= m < b.len() && b[m] == x;
                if m == 0 {
                    lemma_sorted_distinct(a, 0, k + 1);
                }
                assert(bt[m - 1] == x);
                assert(bt.contains(x));
            }
            if bt.contains(x) {
                let k = choose|k: int| 0 <= k < bt.len() && bt[k] == x;
                assert(b[k + 1] == x);
                assert(b.contains(x));
                assert(a.contains(x));
                let m = choose|m: int| 0 <= m < a.len() && a[m] == x;
                if m == 0 {
                    lemma_sorted_distinct(b, 0, k + 1);
                }
                assert(at[m - 1] == x);
                assert(at.contains(x));
            }
        }
        lemma_sorted_set_unique(at, bt);
        assert(a =~= b) by {
            assert(forall|k: int| 1 <= k < a.len() ==> #[trigger] a[k] == at[k - 1]);
            assert(forall|k: int| 1 <= k < b.len() ==> #[trigger] b[k] == bt[k - 1]);
        }
    }
}

// --------------------------------------------------------------------------
// Sorted insertion without duplicates
// --------------------------------------------------------------------------

/// Insert a word into a sorted, duplicate-free list, keeping it so.
fn insert_word(vec: &mut Vec<String>, w: String)
    requires
        strict_sorted(seq_views(old(vec)@)),
    ensures
        strict_sorted(seq_views(final(vec)@)),
        forall|x: Seq<char>|
            seq_views(final(vec)@).contains(x) <==> (seq_views(old(vec)@).contains(x) || x
                == w@),
{
    let ghost vs = seq_views(vec@);
    let n = vec.len();
    let mut idx: usize = 0;
    while idx < n && str_lt(vec[idx].as_str(), w.as_str())
        invariant
            n == vec@.len(),
            vs == seq_views(vec@),
            strict_sorted(vs),
            0 <= idx <= n,
            forall|k: int| 0 <= k < idx ==> lex_lt(#[trigger] vs[k], w@),
        decreases n - idx,
    {
        proof {
            if idx > 0 {
                assert(lex_lt(vs[idx - 1], vs[idx as int]));
            }
        }
        idx = idx + 1;
    }
    if idx < n && !str_lt(w.as_str(), vec[idx].as_str()) {
        proof {
            lemma_lex_connected(vs[idx as int], w@);
            assert(seq_views(vec@).contains(vs[idx as int]));
        }
        return;
    }
    proof {
        if idx < n {
            assert(lex_lt(w@, vs[idx as int]));
        }
    }
    vec.insert(idx, w);
    proof {
        let nvs = seq_views(vec@);
        assert(nvs.len() == vs.len() + 1);
        assert(forall|k: int| 0 <= k < idx ==> nvs[k] == vs[k]);
        assert(nvs[idx as int] == w@);
        assert(forall|k: int| idx < k < nvs.len() ==> nvs[k] == vs[k - 1]);
        assert forall|i: int| 0 <= i < nvs.len() - 1 implies lex_lt(
            #[trigger] nvs[i],
            nvs[i + 1],
        ) by {
            if i + 1 < idx {
                assert(lex_lt(vs[i], vs[i + 1]));
            } else if i + 1 == idx {
                assert(lex_lt(vs[i], w@));
            } else if i == idx {
                assert(lex_lt(w@, vs[i]));
            } else {
                assert(lex_lt(vs[i - 1], vs[i]));
            }
        }
        assert forall|x: Seq<char>|
            nvs.contains(x) <==> (vs.contains(x) || x == w@) by {
            if nvs.contains(x) {
                let k = choose|k: int| 0 <= k < nvs.len() && nvs[k] == x;
                if k < idx {
                    assert(vs[k] == x);
                } else if k == idx {
                } else {
                    assert(vs[k - 1] == x);
                }
            }
            if vs.contains(x) {
                let k = choose|k: int| 0 <= k < vs.len() && vs[k] == x;
                if k < idx {
                    assert(nvs[k] == x);
                } else {
                    assert(nvs[k + 1] == x);
                }
            }
            if x == w@ {
                assert(nvs[idx as int] == x);
            }
        }
    }
}

// --------------------------------------------------------------------------
// The vocabulary
// --------------------------------------------------------------------------

/// The tokens of the text, lowercased.
pub open spec fn lowered_tokens(text: Seq<char>) -> Seq<Seq<char>> {
    split_ws(strip_punct(text)).map_values(|t: Seq<char>| lower_token(t))
}

/// The set of words of the vocabulary of a text.
pub open spec fn vocab_set(text: Seq<char>) -> Set<Seq<char>> {
    lowered_tokens(text).to_set()
}

/// Derive the vocabulary: strip periods and commas, split on ASCII
/// whitespace, lowercase, sort, and drop duplicates. The result is the
/// unique strictly sorted list of the text's lowercased tokens.
pub fn get_wordlist(text: &str) -> (r: Vec<String>)
    ensures
        strict_sorted(seq_views(r@)),
        seq_views(r@).to_set() == vocab_set(text@),
{
    let stripped = strip_punct_exec(text);
    let tokens = split_ws_exec(stripped.as_str());
    let ghost lts = lowered_tokens(text@);
    proof {
        assert(lts =~= seq_views(tokens@).map_values(|t: Seq<char>| lower_token(t)));
    }
    let mut out: Vec<String> = Vec::new();
    let mut i: usize = 0;
    while i < tokens.len()
        invariant
            lts == seq_views(tokens@).map_values(|t: Seq<char>| lower_token(t)),
            0 <= i <= tokens@.len(),
            strict_sorted(seq_views(out@)),
            forall|x: Seq<char>|
                seq_views(out@).contains(x) <==> lts.take(i as int).contains(x),
        decreases tokens@.len() - i,
    {
        let lw = lowercase_token(tokens[i].as_str());
        assert(lw@ == lts[i as int]);
        let ghost pre_vs = seq_views(out@);
        insert_word(&mut out, lw);
        proof {
            assert forall|x: Seq<char>|
                seq_views(out@).contains(x) <==> lts.take(i + 1).contains(x) by {
                assert(seq_views(out@).contains(x) <==> (pre_vs.contains(x) || x == lw@));
                if lts.take(i + 1).contains(x) {
                    let k = choose|k: int| 0 <= k < i + 1 && #[trigger] lts.take(i + 1)[k] == x;
                    if k < i {
                        assert(lts.take(i as int)[k] == x);
                    } else {
                        assert(x == lts[i as int]);
                    }
                }
                if lts.take(i as int).contains(x) {
                    let k = choose|k: int| 0 <= k < i && #[trigger] lts.take(i as int)[k] == x;
                    assert(lts.take(i + 1)[k] == x);
                }
                if x == lts[i as int] {
                    assert(lts.take(i + 1)[i as int] == x);
                }
            }
        }
        i = i + 1;
    }
    proof {
        assert(lts.take(lts.len() as int) =~= lts);
        assert(seq_views(out@).to_set() =~= vocab_set(text@));
    }
    out
}

// --------------------------------------------------------------------------
// The first sentence
// --------------------------------------------------------------------------

/// The characters before the first period.
pub open spec fn sentence_prefix(s: Seq<char>) -> Seq<char>
    decreases s.len(),
{
    if s.len() == 0 || s[0] == '.' {
        Seq::empty()
    } else {
        seq![s[0]] + sentence_prefix(s.skip(1))
    }
}

/// The first sentence of a text: everything before the first period, with
/// a period appended; a text without a period is taken whole.
pub open spec fn first_sentence_spec(s: Seq<char>) -> Seq<char> {
    sentence_prefix(s).push('.')
}

proof fn lemma_sentence_prefix_take(s: Seq<char>, i: int)
    requires
        0 <= i <= s.len(),
        forall|k: int| 0 <= k < i ==> (#[trigger] s[k]) != '.',
        i < s.len() ==> s[i] == '.',
    ensures
        sentence_prefix(s) == s.take(i),
    decreases i,
{
    if i == 0 {
        assert(s.take(0) =~= Seq::<char>::empty());
    } else {
        lemma_sentence_prefix_take(s.skip(1), i - 1);
        assert(seq![s[0]] + s.skip(1).take(i - 1) =~= s.take(i));
    }
}

/// Extract the first sentence of the text verbatim.
pub fn get_first_sentence(text: &str) -> (r: String)
    ensures
        r@ == first_sentence_spec(text@),
{
    let n = text.unicode_len();
    let mut i: usize = 0;
    while i < n && text.get_char(i) != '.'
        invariant
            n == text@.len(),
            0 <= i <= n,
            forall|k: int| 0 <= k < i ==> (#[trigger] text@[k]) != '.',
        decreases n - i,
    {
        i = i + 1;
    }
    let mut r = text.substring_char(0, i).to_owned();
    push_char(&mut r, '.');
    proof {
        lemma_sentence_prefix_take(text@, i as int);
        assert(text@.subrange(0, i as int) =~= text@.take(i as int));
    }
    r
}

// --------------------------------------------------------------------------
// Idempotence of extraction
// --------------------------------------------------------------------------

proof fn lemma_strip_chars(s: Seq<char>)
    requires
        ascii_seq(s),
    ensures
        forall|k: int|
            0 <= k < strip_punct(s).len() ==> keep_char(#[trigger] strip_punct(s)[k])
                && is_ascii_char(strip_punct(s)[k]),
    decreases s.len(),
{
    if s.len() > 0 {
        assert(ascii_seq(s.drop_last()));
        lemma_strip_chars(s.drop_last());
        assert(is_ascii_char(s.last()));
        let d = strip_punct(s.drop_last());
        assert forall|k: int| 0 <= k < strip_punct(s).len() implies keep_char(
            #[trigger] strip_punct(s)[k],
        ) && is_ascii_char(strip_punct(s)[k]) by {
            if keep_char(s.last()) {
                assert(strip_punct(s) == d.push(s.last()));
                if k < d.len() {
                    assert(strip_punct(s)[k] == d[k]);
                } else {
                    assert(strip_punct(s)[k] == s.last());
                }
            } else {
                assert(strip_punct(s) == d);
            }
        }
    }
}

proof fn lemma_split_rec_tokens(s: Seq<char>, cur: Seq<char>)
    requires
        forall|k: int|
            0 <= k < s.len() ==> keep_char(#[trigger] s[k]) && is_ascii_char(s[k]),
        forall|k: int| 0 <= k < cur.len() ==> word_char(#[trigger] cur[k]),
    ensures
        forall|j: int| 0 <= j < split_rec(s, cur).len() ==> clean_word(
            #[trigger] split_rec(s, cur)[j],
        ),
    decreases s.len(),
{
    if s.len() == 0 {
        if cur.len() > 0 {
            assert(clean_word(cur));
            assert(split_rec(s, cur) == seq![cur]);
            assert(split_rec(s, cur)[0] == cur);
        }
    } else {
        assert(forall|k: int|
            0 <= k < s.skip(1).len() ==> keep_char(#[trigger] s.skip(1)[k]) && is_ascii_char(
                s.skip(1)[k],
            ));
        if is_ascii_ws_char(s[0]) {
            lemma_split_rec_tokens(s.skip(1), Seq::empty());
            let z = split_rec(s.skip(1), Seq::empty());
            assert forall|j: int| 0 <= j < split_rec(s, cur).len() implies clean_word(
                #[trigger] split_rec(s, cur)[j],
            ) by {
                if cur.len() == 0 {
                    assert(split_rec(s, cur)[j] == z[j]);
                } else {
                    assert(clean_word(cur));
                    assert(split_rec(s, cur) == seq![cur] + z);
                    if j == 0 {
                        assert(split_rec(s, cur)[0] == cur);
                    } else {
                        assert(split_rec(s, cur)[j] == z[j - 1]);
                    }
                }
            }
        } else {
            assert(word_char(s[0]));
            assert(forall|k: int|
                0 <= k < cur.push(s[0]).len() ==> word_char(#[trigger] cur.push(s[0])[k]));
            lemma_split_rec_tokens(s.skip(1), cur.push(s[0]));
            assert(split_rec(s, cur) == split_rec(s.skip(1), cur.push(s[0])));
        }
    }
}

/// Every word of an ASCII text's vocabulary is a nonempty run of ASCII
/// characters free of periods, commas and whitespace, already lowercase.
pub proof fn lemma_vocab_words(text: Seq<char>, x: Seq<char>)
    requires
        ascii_seq(text),
        vocab_set(text).contains(x),
    ensures
        clean_word(x),
        ascii_lower_seq(x) == x,
{
    let stripped = strip_punct(text);
    let toks = split_ws(stripped);
    lemma_strip_chars(text);
    lemma_split_rec_tokens(stripped, Seq::empty());
    assert(lowered_tokens(text).contains(x));
    let j = choose|j: int| 0 <= j < lowered_tokens(text).len() && lowered_tokens(text)[j] == x;
    let t = toks[j];
    assert(clean_word(t));
    assert(x == lower_token(t));
    assert(ascii_seq(t));
    assert(x == ascii_lower_seq(t));
    assert forall|k: int| 0 <= k < x.len() implies word_char(#[trigger] x[k]) by {
        assert(x[k] == ascii_lower_char(t[k]));
        assert(word_char(t[k]));
    }
    assert(ascii_lower_seq(x) =~= x) by {
        assert forall|k: int| 0 <= k < x.len() implies ascii_lower_seq(x)[k] == x[k] by {
            assert(x[k] == ascii_lower_char(t[k]));
        }
    }
}

/// The vocabulary of an ASCII text consists of clean words only, so the
/// assembled output keeps its punctuation shape.
pub proof fn lemma_ascii_vocab_clean(text: Seq<char>, v: Seq<Seq<char>>)
    requires
        ascii_seq(text),
        forall|x: Seq<char>| v.contains(x) ==> vocab_set(text).contains(x),
    ensures
        all_clean(v),
{
    assert forall|i: int| 0 <= i < v.len() implies clean_word(#[trigger] v[i]) by {
        assert(v.contains(v[i]));
        assert(vocab_set(text).contains(v[i]));
        lemma_vocab_words(text, v[i]);
    }
}

/// Writing the join with its head split off.
proof fn lemma_join_left(v: Seq<Seq<char>>)
    requires
        v.len() >= 2,
    ensures
        join_spaces(v) == v.first() + seq![' '] + join_spaces(v.skip(1)),
    decreases v.len(),
{
    if v.len() == 2 {
        assert(v.drop_last() =~= seq![v[0]]);
        assert(v.skip(1) =~= seq![v[1]]);
        assert(join_spaces(v) == join_spaces(v.drop_last()) + seq![' '] + v[1]);
    } else {
        lemma_join_left(v.drop_last());
        assert(v.drop_last().first() == v.first());
        assert(v.drop_last().skip(1) =~= v.skip(1).drop_last());
        assert(join_spaces(v) == join_spaces(v.drop_last()) + seq![' '] + v.last());
        assert(join_spaces(v.skip(1)) == join_spaces(v.skip(1).drop_last()) + seq![' ']
            + v.skip(1).last());
        assert(v.skip(1).last() == v.last());
        assert((v.first() + seq![' '] + join_spaces(v.skip(1).drop_last())) + seq![' ']
            + v.last() =~= v.first() + seq![' '] + (join_spaces(v.skip(1).drop_last()) + seq![
            ' ',
        ] + v.last()));
    }
}

/// Reading a whitespace-free word off the front of the text being split.
proof fn lemma_split_word(w: Seq<char>, rest: Seq<char>, cur: Seq<char>)
    requires
        forall|k: int| 0 <= k < w.len() ==> !is_ascii_ws_char(#[trigger] w[k]),
    ensures
        split_rec(w + rest, cur) == split_rec(rest, cur + w),
    decreases w.len(),
{
    if w.len() == 0 {
        assert(w + rest =~= rest);
        assert(cur + w =~= cur);
    } else {
        assert((w + rest)[0] == w[0]);
        assert(!is_ascii_ws_char(w[0]));
        assert((w + rest).len() > 0);
        assert(split_rec(w + rest, cur) == split_rec((w + rest).skip(1), cur.push(w[0])));
        assert((w + rest).skip(1) =~= w.skip(1) + rest);
        assert(forall|k: int|
            0 <= k < w.skip(1).len() ==> !is_ascii_ws_char(#[trigger] w.skip(1)[k]));
        lemma_split_word(w.skip(1), rest, cur.push(w[0]));
        assert(cur.push(w[0]) + w.skip(1) =~= cur + w);
    }
}

/// The vocabulary of the space-joined word list of an ASCII text's own
/// vocabulary is that vocabulary again: extraction is idempotent on the
/// set of words.
pub proof fn lemma_vocabulary_idempotent(text: Seq<char>, v: Seq<Seq<char>>)
    requires
        ascii_seq(text),
        forall|x: Seq<char>| v.contains(x) <==> vocab_set(text).contains(x),
    ensures
        vocab_set(join_spaces(v)) == vocab_set(text),
{
    let j = join_spaces(v);
    assert forall|i: int| 0 <= i < v.len() implies clean_word(#[trigger] v[i])
        && ascii_lower_seq(v[i]) == v[i] by {
        assert(v.contains(v[i]));
        assert(vocab_set(text).contains(v[i]));
        lemma_vocab_words(text, v[i]);
    }
    lemma_join_token_chars(v);
    lemma_strip_noop(j);
    lemma_split_join(v);
    assert(lowered_tokens(j) =~= v) by {
        assert(split_ws(strip_punct(j)) == v);
        assert forall|i: int| 0 <= i < v.len() implies lowered_tokens(j)[i] == v[i] by {
            assert(lowered_tokens(j)[i] == lower_token(v[i]));
            assert(ascii_seq(v[i]));
            assert(lower_token(v[i]) == ascii_lower_seq(v[i]));
        }
    }
    assert(vocab_set(j) =~= vocab_set(text)) by {
        assert forall|x: Seq<char>| vocab_set(j).contains(x) <==> vocab_set(text).contains(
            x,
        ) by {
            assert(vocab_set(j).contains(x) <==> v.contains(x));
        }
    }
}

/// The characters of a join of token words: token characters and spaces.
proof fn lemma_join_token_chars(v: Seq<Seq<char>>)
    requires
        forall|i: int| 0 <= i < v.len() ==> clean_word(#[trigger] v[i]),
    ensures
        forall|k: int|
            0 <= k < join_spaces(v).len() ==> (word_char(#[trigger] join_spaces(v)[k])
                || join_spaces(v)[k] == ' '),
    decreases v.len(),
{
    if v.len() <= 1 {
    } else {
        lemma_join_token_chars(v.drop_last());
        let j0 = join_spaces(v.drop_last());
        let j = join_spaces(v);
        let l0 = j0.len() as int;
        assert(j == j0 + seq![' '] + v.last());
        assert forall|k: int| 0 <= k < j.len() implies (word_char(#[trigger] j[k]) || j[k]
            == ' ') by {
            if k < l0 {
                assert(j[k] == j0[k]);
            } else if k == l0 {
                assert(j[k] == ' ');
            } else {
                assert(j[k] == v.last()[k - l0 - 1]);
            }
        }
    }
}

/// Stripping leaves a text without periods and commas unchanged.
proof fn lemma_strip_noop(s: Seq<char>)
    requires
        forall|k: int| 0 <= k < s.len() ==> keep_char(#[trigger] s[k]),
    ensures
        strip_punct(s) == s,
    decreases s.len(),
{
    if s.len() == 0 {
        assert(strip_punct(s) =~= s);
    } else {
        lemma_strip_noop(s.drop_last());
        assert(strip_punct(s) =~= s);
    }
}

/// Splitting the space-join of nonempty whitespace-free words recovers
/// exactly those words.
proof fn lemma_split_join(v: Seq<Seq<char>>)
    requires
        forall|i: int| 0 <= i < v.len() ==> clean_word(#[trigger] v[i]),
    ensures
        split_ws(join_spaces(v)) == v,
    decreases v.len(),
{
    if v.len() == 0 {
        assert(split_ws(join_spaces(v)) =~= v);
    } else if v.len() == 1 {
        let w = v[0];
        assert(w + Seq::<char>::empty() =~= w);
        lemma_split_word(w, Seq::empty(), Seq::empty());
        assert(split_rec(w, Seq::empty()) == split_rec(
            Seq::empty(),
            Seq::<char>::empty() + w,
        ));
        assert(Seq::<char>::empty() + w =~= w);
        assert(split_rec(Seq::<char>::empty(), w) =~= seq![w]);
        assert(seq![w] =~= v);
    } else {
        lemma_join_left(v);
        let w = v.first();
        let tail = join_spaces(v.skip(1));
        assert(join_spaces(v) =~= w + (seq![' '] + tail));
        lemma_split_word(w, seq![' '] + tail, Seq::empty());
        assert(Seq::<char>::empty() + w =~= w);
        assert((seq![' '] + tail)[0] == ' ');
        assert(split_rec(seq![' '] + tail, w) == seq![w] + split_rec(
            (seq![' '] + tail).skip(1),
            Seq::empty(),
        ));
        assert((seq![' '] + tail).skip(1) =~= tail);
        assert(forall|i: int| 0 <= i < v.skip(1).len() ==> clean_word(#[trigger] v.skip(1)[i]));
        lemma_split_join(v.skip(1));
        assert(seq![w] + v.skip(1) =~= v);
    }
}

} // verus!
