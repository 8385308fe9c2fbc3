use vstd::prelude::*;

verus! {

// --------------------------------------------------------------------------
// Character classes
// --------------------------------------------------------------------------

/// The ASCII whitespace characters, the class `split_ascii_whitespace`
/// splits on.
pub open spec fn is_ascii_ws_char(c: char) -> bool {
    c == ' ' || c == '\t' || c == '\n' || c == '\r' || c == '\x0c'
}

/// The Unicode `White_Space` characters, the class trimming removes.
pub open spec fn is_ws_char(c: char) -> bool {
    ('\t' <= c && c <= '\r') || c == ' ' || c == '\u{85}' || c == '\u{a0}' || c == '\u{1680}'
        || ('\u{2000}' <= c && c <= '\u{200a}') || c == '\u{2028}' || c == '\u{2029}'
        || c == '\u{202f}' || c == '\u{205f}' || c == '\u{3000}'
}

pub open spec fn is_ascii_char(c: char) -> bool {
    '\0' <= c && c <= '\u{7f}'
}

/// The views of a sequence of strings.
pub open spec fn seq_views(xs: Seq<String>) -> Seq<Seq<char>> {
    xs.map_values(|s: String| s@)
}

pub open spec fn ascii_seq(s: Seq<char>) -> bool {
    forall|i: int| 0 <= i < s.len() ==> is_ascii_char(#[trigger] s[i])
}

/// A character a vocabulary word may contain without disturbing the
/// punctuation and spacing of assembled output: ASCII, not a period,
/// not a comma, not whitespace.
pub open spec fn word_char(c: char) -> bool {
    is_ascii_char(c) && c != '.' && c != ',' && !is_ascii_ws_char(c)
}

/// A word that is safe to splice between spaces, commas and periods.
pub open spec fn clean_word(w: Seq<char>) -> bool {
    w.len() > 0 && forall|i: int| 0 <= i < w.len() ==> word_char(#[trigger] w[i])
}

pub open spec fn all_clean(ws: Seq<Seq<char>>) -> bool {
    forall|i: int| 0 <= i < ws.len() ==> clean_word(#[trigger] ws[i])
}

pub fn unicode_ws(c: char) -> (r: bool)
    ensures
        r == is_ws_char(c),
{
    ('\t' <= c && c <= '\r') || c == ' ' || c == '\u{85}' || c == '\u{a0}' || c == '\u{1680}'
        || ('\u{2000}' <= c && c <= '\u{200a}') || c == '\u{2028}' || c == '\u{2029}'
        || c == '\u{202f}' || c == '\u{205f}' || c == '\u{3000}'
}

// --------------------------------------------------------------------------
// Case mapping
// --------------------------------------------------------------------------

/// The uppercase mapping of a character outside the ASCII range; the
/// characters it consists of are a function of `c` alone.
pub uninterp spec fn upper_of(c: char) -> Seq<char>;

/// The lowercase form of a string outside the ASCII range; a function of
/// the characters alone.
pub uninterp spec fn lower_of(s: Seq<char>) -> Seq<char>;

pub open spec fn ascii_upper_char(c: char) -> char {
    if 'a' <= c && c <= 'z' {
        (((c as u8) - 32) as char)
    } else {
        c
    }
}

pub open spec fn ascii_lower_char(c: char) -> char {
    if 'A' <= c && c <= 'Z' {
        (((c as u8) + 32) as char)
    } else {
        c
    }
}

pub open spec fn ascii_lower_seq(s: Seq<char>) -> Seq<char> {
    Seq::new(s.len(), |i: int| ascii_lower_char(s[i]))
}

/// The lowercase form of an arbitrary token: ASCII tokens map letter by
/// letter, others by the Unicode mapping.
pub open spec fn lower_token(s: Seq<char>) -> Seq<char> {
    if ascii_seq(s) {
        ascii_lower_seq(s)
    } else {
        lower_of(s)
    }
}

/// The uppercase mapping of a single character: ASCII letters map
/// directly, others by the Unicode mapping.
pub open spec fn upper_char_seq(c: char) -> Seq<char> {
    if is_ascii_char(c) {
        seq![ascii_upper_char(c)]
    } else {
        upper_of(c)
    }
}

/// Relies on str::to_lowercase: the resulting characters depend on the
/// characters of the input alone.
#[verifier::external_body]
fn lower_ext(s: &str) -> (r: String)
    ensures
        r@ == lower_of(s@),
{
    s.to_lowercase()
}

/// Relies on char::to_uppercase: the characters it yields depend on the
/// character alone.
#[verifier::external_body]
fn upper_ext(c: char) -> (r: String)
    ensures
        r@ == upper_of(c),
{
    c.to_uppercase().collect()
}

/// Relies on String::push: appends the character to the end of the string.
#[verifier::external_body]
pub fn push_char(s: &mut String, c: char)
    ensures
        final(s)@ == old(s)@.push(c),
{
    s.push(c)
}

/// Lowercase a token as the vocabulary records it.
pub fn lowercase_token(s: &str) -> (r: String)
    ensures
        r@ == lower_token(s@),
{
    if s.is_ascii() {
        let n = s.unicode_len();
        let mut out = String::new();
        let mut i: usize = 0;
        while i < n
            invariant
                n == s@.len(),
                ascii_seq(s@),
                0 <= i <= n,
                out@ == ascii_lower_seq(s@).subrange(0, i as int),
            decreases n - i,
        {
            let c = s.get_char(i);
            let lc = if 'A' <= c && c <= 'Z' {
                (((c as u8) + 32) as char)
            } else {
                c
            };
            push_char(&mut out, lc);
            assert(out@ =~= ascii_lower_seq(s@).subrange(0, i + 1));
            i = i + 1;
        }
        assert(out@ =~= ascii_lower_seq(s@));
        out
    } else {
        lower_ext(s)
    }
}

/// Capitalization of a word: the uppercase mapping of the first character
/// followed by the rest unchanged; empty input stays empty.
pub open spec fn cap_first(w: Seq<char>) -> Seq<char> {
    if w.len() == 0 {
        w
    } else {
        upper_char_seq(w[0]) + w.skip(1)
    }
}

/// Uppercase the first character of a string, leaving the rest unchanged.
pub fn capitalize_first_letter(s: &str) -> (r: String)
    ensures
        r@ == cap_first(s@),
{
    let n = s.unicode_len();
    if n == 0 {
        let r = String::new();
        assert(r@ =~= cap_first(s@));
        return r;
    }
    let c = s.get_char(0);
    let mut out: String;
    if c <= '\u{7f}' {
        out = String::new();
        let uc = if 'a' <= c && c <= 'z' {
            (((c as u8) - 32) as char)
        } else {
            c
        };
        push_char(&mut out, uc);
        assert(out@ =~= upper_char_seq(s@[0]));
    } else {
        out = upper_ext(c);
    }
    let rest = s.substring_char(1, n);
    out.append(rest);
    assert(out@ =~= cap_first(s@));
    out
}

// --------------------------------------------------------------------------
// Trimming
// --------------------------------------------------------------------------

pub open spec fn trim_start_by(s: Seq<char>, p: spec_fn(char) -> bool) -> Seq<char>
    decreases s.len(),
{
    if s.len() > 0 && p(s[0]) {
        trim_start_by(s.skip(1), p)
    } else {
        s
    }
}

pub open spec fn trim_end_by(s: Seq<char>, p: spec_fn(char) -> bool) -> Seq<char>
    decreases s.len(),
{
    if s.len() > 0 && p(s.last()) {
        trim_end_by(s.drop_last(), p)
    } else {
        s
    }
}

pub open spec fn trim_by(s: Seq<char>, p: spec_fn(char) -> bool) -> Seq<char> {
    trim_start_by(trim_end_by(s, p), p)
}

pub open spec fn trim_ws_spec(s: Seq<char>) -> Seq<char> {
    trim_by(s, |c: char| is_ws_char(c))
}

pub open spec fn trim_commas_spec(s: Seq<char>) -> Seq<char> {
    trim_by(s, |c: char| c == ',')
}

pub proof fn lemma_trim_end_take(s: Seq<char>, p: spec_fn(char) -> bool, m: int)
    requires
        0 <= m <= s.len(),
        forall|k: int| m <= k < s.len() ==> p(#[trigger] s[k]),
        m > 0 ==> !p(s[m - 1]),
    ensures
        trim_end_by(s, p) == s.take(m),
    decreases s.len(),
{
    if m == s.len() {
        assert(s.take(m) =~= s);
    } else {
        assert(p(s.last()));
        lemma_trim_end_take(s.drop_last(), p, m);
        assert(s.drop_last().take(m) =~= s.take(m));
    }
}

pub proof fn lemma_trim_start_skip(s: Seq<char>, p: spec_fn(char) -> bool, i: int)
    requires
        0 <= i <= s.len(),
        forall|k: int| 0 <= k < i ==> p(#[trigger] s[k]),
        i < s.len() ==> !p(s[i]),
    ensures
        trim_start_by(s, p) == s.skip(i),
    decreases i,
{
    if i == 0 {
        assert(s.skip(0) =~= s);
    } else {
        assert(p(s[0]));
        lemma_trim_start_skip(s.skip(1), p, i - 1);
        assert(s.skip(1).skip(i - 1) =~= s.skip(i));
    }
}

/// Appending characters of the trimmed class does not change the trim.
pub proof fn lemma_trim_end_push(s: Seq<char>, p: spec_fn(char) -> bool, c: char)
    requires
        p(c),
    ensures
        trim_end_by(s.push(c), p) == trim_end_by(s, p),
{
    assert(s.push(c).drop_last() =~= s);
}

pub proof fn lemma_trim_by_push(s: Seq<char>, p: spec_fn(char) -> bool, c: char)
    requires
        p(c),
    ensures
        trim_by(s.push(c), p) == trim_by(s, p),
{
    lemma_trim_end_push(s, p, c);
}

/// Trimming keeps a character outside the trimmed class, so the result is
/// nonempty whenever one exists.
pub proof fn lemma_trim_end_keeps(s: Seq<char>, p: spec_fn(char) -> bool, k: int)
    requires
        0 <= k < s.len(),
        !p(s[k]),
    ensures
        exists|k2: int| 0 <= k2 < trim_end_by(s, p).len() && !p(trim_end_by(s, p)[k2]),
    decreases s.len(),
{
    if p(s.last()) {
        assert(k < s.len() - 1);
        assert(trim_end_by(s, p) == trim_end_by(s.drop_last(), p));
        lemma_trim_end_keeps(s.drop_last(), p, k);
    } else {
        assert(trim_end_by(s, p) == s);
        assert(0 <= s.len() - 1 < trim_end_by(s, p).len() && !p(trim_end_by(s, p)[s.len() - 1]));
    }
}

pub proof fn lemma_trim_start_keeps(s: Seq<char>, p: spec_fn(char) -> bool, k: int)
    requires
        0 <= k < s.len(),
        !p(s[k]),
    ensures
        trim_start_by(s, p).len() > 0,
    decreases s.len(),
{
    if s.len() > 0 && p(s[0]) {
        assert(k >= 1);
        lemma_trim_start_keeps(s.skip(1), p, k - 1);
    }
}

pub proof fn lemma_trim_by_nonempty(s: Seq<char>, p: spec_fn(char) -> bool, k: int)
    requires
        0 <= k < s.len(),
        !p(s[k]),
    ensures
        trim_by(s, p).len() > 0,
{
    lemma_trim_end_keeps(s, p, k);
    let k2 = choose|k2: int|
        0 <= k2 < trim_end_by(s, p).len() && !p(trim_end_by(s, p)[k2]);
    lemma_trim_start_keeps(trim_end_by(s, p), p, k2);
}

/// The edges of a trimmed string are outside the trimmed class.
pub proof fn lemma_trim_by_edges(s: Seq<char>, p: spec_fn(char) -> bool)
    ensures
        trim_by(s, p).len() > 0 ==> !p(trim_by(s, p)[0]),
        trim_by(s, p).len() > 0 ==> !p(trim_by(s, p).last()),
    decreases s.len(),
{
    let t = trim_end_by(s, p);
    lemma_trim_end_last(s, p);
    lemma_trim_start_front(t, p);
    lemma_trim_start_suffix(t, p);
}

pub proof fn lemma_trim_end_last(s: Seq<char>, p: spec_fn(char) -> bool)
    ensures
        trim_end_by(s, p).len() > 0 ==> !p(trim_end_by(s, p).last()),
    decreases s.len(),
{
    if s.len() > 0 && p(s.last()) {
        lemma_trim_end_last(s.drop_last(), p);
    }
}

pub proof fn lemma_trim_start_front(s: Seq<char>, p: spec_fn(char) -> bool)
    ensures
        trim_start_by(s, p).len() > 0 ==> !p(trim_start_by(s, p)[0]),
    decreases s.len(),
{
    if s.len() > 0 && p(s[0]) {
        lemma_trim_start_front(s.skip(1), p);
    }
}

/// trim_start yields a suffix, so it keeps the last character.
pub proof fn lemma_trim_start_suffix(s: Seq<char>, p: spec_fn(char) -> bool)
    ensures
        trim_start_by(s, p).len() > 0 ==> s.len() > 0 && trim_start_by(s, p).last()
            == s.last(),
    decreases s.len(),
{
    if s.len() > 0 && p(s[0]) {
        lemma_trim_start_suffix(s.skip(1), p);
    }
}

/// Remove leading and trailing whitespace.
pub fn trim_ws(s: &str) -> (r: String)
    ensures
        r@ == trim_ws_spec(s@),
{
    let ghost p = |c: char| is_ws_char(c);
    let n = s.unicode_len();
    let mut i: usize = 0;
    while i < n && unicode_ws(s.get_char(i))
        invariant
            n == s@.len(),
            0 <= i <= n,
            forall|k: int| 0 <= k < i ==> is_ws_char(#[trigger] s@[k]),
        decreases n - i,
    {
        i = i + 1;
    }
    if i == n {
        proof {
            lemma_trim_end_take(s@, p, 0);
            lemma_trim_start_skip(s@.take(0), p, 0);
            assert(s@.take(0).skip(0) =~= Seq::<char>::empty());
        }
        return String::new();
    }
    let mut j: usize = n - 1;
    while j > i && unicode_ws(s.get_char(j))
        invariant
            n == s@.len(),
            0 <= i <= j < n,
            !is_ws_char(s@[i as int]),
            forall|k: int| j < k < n ==> is_ws_char(#[trigger] s@[k]),
        decreases j,
    {
        j = j - 1;
    }
    let r = s.substring_char(i, j + 1).to_owned();
    proof {
        lemma_trim_end_take(s@, p, j + 1);
        lemma_trim_start_skip(s@.take(j + 1), p, i as int);
        assert(s@.take(j + 1).skip(i as int) =~= s@.subrange(i as int, j + 1));
    }
    r
}

/// Remove leading and trailing commas.
pub fn trim_commas(s: &str) -> (r: String)
    ensures
        r@ == trim_commas_spec(s@),
{
    let ghost p = |c: char| c == ',';
    let n = s.unicode_len();
    let mut i: usize = 0;
    while i < n && s.get_char(i) == ','
        invariant
            n == s@.len(),
            0 <= i <= n,
            forall|k: int| 0 <= k < i ==> (#[trigger] s@[k]) == ',',
        decreases n - i,
    {
        i = i + 1;
    }
    if i == n {
        proof {
            lemma_trim_end_take(s@, p, 0);
            lemma_trim_start_skip(s@.take(0), p, 0);
            assert(s@.take(0).skip(0) =~= Seq::<char>::empty());
        }
        return String::new();
    }
    let mut j: usize = n - 1;
    while j > i && s.get_char(j) == ','
        invariant
            n == s@.len(),
            0 <= i <= j < n,
            s@[i as int] != ',',
            forall|k: int| j < k < n ==> (#[trigger] s@[k]) == ',',
        decreases j,
    {
        j = j - 1;
    }
    let r = s.substring_char(i, j + 1).to_owned();
    proof {
        lemma_trim_end_take(s@, p, j + 1);
        lemma_trim_start_skip(s@.take(j + 1), p, i as int);
        assert(s@.take(j + 1).skip(i as int) =~= s@.subrange(i as int, j + 1));
    }
    r
}

// --------------------------------------------------------------------------
// Joining
// --------------------------------------------------------------------------

/// The pieces joined with a single space between them.
pub open spec fn join_spaces(xs: Seq<Seq<char>>) -> Seq<char>
    decreases xs.len(),
{
    if xs.len() == 0 {
        Seq::empty()
    } else if xs.len() == 1 {
        xs[0]
    } else {
        join_spaces(xs.drop_last()) + seq![' '] + xs.last()
    }
}

/// The pieces concatenated in order.
pub open spec fn concat_all(xs: Seq<Seq<char>>) -> Seq<char>
    decreases xs.len(),
{
    if xs.len() == 0 {
        Seq::empty()
    } else {
        concat_all(xs.drop_last()) + xs.last()
    }
}

} // verus!
