use vstd::prelude::*;
use crate::count::UnitCount;
use crate::placeholder::Placeholder;
use crate::rng::{fresh_rng, rng_one_in, sample_words};
use crate::text::{
    all_clean, ascii_upper_char, cap_first, capitalize_first_letter, clean_word, concat_all,
    is_ws_char, join_spaces, lemma_trim_by_edges, lemma_trim_by_nonempty, lemma_trim_by_push,
    lemma_trim_end_take, lemma_trim_start_skip, push_char, seq_views, trim_commas,
    trim_commas_spec, trim_ws, trim_ws_spec, word_char,
};
use crate::vocabulary::{
    first_sentence_spec, get_first_sentence, get_wordlist, strict_sorted, vocab_set,
};

verus! {

// --------------------------------------------------------------------------
// Configuration
// --------------------------------------------------------------------------

/// The five tunable parameters of generation.
#[derive(Clone, Copy)]
pub struct LoremConfig {
    pub words_count: UnitCount,
    pub sentences_count: UnitCount,
    pub paragraphs_count: UnitCount,
    /// Average number of words per inserted comma; each word draws a
    /// comma with probability one over this value.
    pub comma_probability: usize,
    /// Whether the next sentence-level generation opens with the source
    /// text's first sentence, verbatim.
    pub static_first_sentence: bool,
}

impl LoremConfig {
    /// Counts must be valid and the comma ratio a positive integer small
    /// enough for the Bernoulli draw.
    pub open spec fn wf(self) -> bool {
        self.words_count.wf() && self.sentences_count.wf() && self.paragraphs_count.wf() && 1
            <= self.comma_probability <= 0xffff_ffffusize
    }

    /// The default parameters: 7 to 15 words, 3 to 5 sentences, 2
    /// paragraphs, a comma every 7 words on average, and a static first
    /// sentence.
    pub open spec fn default_spec() -> LoremConfig {
        LoremConfig {
            words_count: UnitCount::Range(7, 15),
            sentences_count: UnitCount::Range(3, 5),
            paragraphs_count: UnitCount::Num(2),
            comma_probability: 7,
            static_first_sentence: true,
        }
    }
}

impl Default for LoremConfig {
    fn default() -> (r: Self)
        ensures
            r == LoremConfig::default_spec(),
            r.wf(),
    {
        LoremConfig {
            words_count: UnitCount::Range(7, 15),
            sentences_count: UnitCount::Range(3, 5),
            paragraphs_count: UnitCount::Num(2),
            comma_probability: 7,
            static_first_sentence: true,
        }
    }
}

// --------------------------------------------------------------------------
// What the generated strings look like
// --------------------------------------------------------------------------

/// A sample without replacement: the drawn words, with multiplicity, all
/// come from the vocabulary.
pub open spec fn sampled_from(ws: Seq<Seq<char>>, vocab: Seq<Seq<char>>) -> bool {
    ws.to_multiset().subset_of(vocab.to_multiset())
}

/// The number of drawn words: the resolved count, capped at the size of
/// the vocabulary.
pub open spec fn count_capped(wc: UnitCount, k: int, vlen: int) -> bool {
    exists|n: int|
        wc.allows(n) && k == if n <= vlen {
            n
        } else {
            vlen
        }
}

/// The drawn words, the first capitalized, each followed by a comma where
/// its draw said so.
pub open spec fn decorate(ws: Seq<Seq<char>>, cs: Seq<bool>) -> Seq<Seq<char>> {
    Seq::new(
        ws.len(),
        |i: int|
            (if i == 0 {
                cap_first(ws[i])
            } else {
                ws[i]
            }) + (if cs[i] {
                seq![',']
            } else {
                Seq::<char>::empty()
            }),
    )
}

/// Words-level assembly: decorated words joined with single spaces, edge
/// commas trimmed, and a final period appended.
pub open spec fn render_words(ws: Seq<Seq<char>>, cs: Seq<bool>) -> Seq<char> {
    trim_commas_spec(join_spaces(decorate(ws, cs))).push('.')
}

/// Is `out` a possible words-level output over this vocabulary and count?
pub open spec fn words_output(vocab: Seq<Seq<char>>, wc: UnitCount, out: Seq<char>) -> bool {
    exists|ws: Seq<Seq<char>>, cs: Seq<bool>|
        sampled_from(ws, vocab) && cs.len() == ws.len() && count_capped(
            wc,
            ws.len() as int,
            vocab.len() as int,
        ) && out == #[trigger] render_words(ws, cs)
}

/// The sentences as concatenated: the first replaced by the stored first
/// sentence when that mode is on, each followed by one space.
pub open spec fn chosen_sentences(gens: Seq<Seq<char>>, use_first: bool, fs: Seq<char>) -> Seq<
    Seq<char>,
> {
    Seq::new(
        gens.len(),
        |i: int|
            (if i == 0 && use_first {
                fs
            } else {
                gens[i]
            }) + seq![' '],
    )
}

/// Is `out` a possible sentences-level output?
pub open spec fn sentences_output(
    vocab: Seq<Seq<char>>,
    wc: UnitCount,
    sc: UnitCount,
    use_first: bool,
    fs: Seq<char>,
    out: Seq<char>,
) -> bool {
    exists|gens: Seq<Seq<char>>|
        sc.allows(gens.len() as int) && (forall|i: int|
            0 <= i < gens.len() ==> words_output(vocab, wc, #[trigger] gens[i])) && out
            == trim_ws_spec(concat_all(#[trigger] chosen_sentences(gens, use_first, fs)))
}

/// The paragraphs as concatenated, each followed by a blank line.
pub open spec fn para_blocks(paras: Seq<Seq<char>>) -> Seq<Seq<char>> {
    Seq::new(paras.len(), |i: int| paras[i] + seq!['\n', '\n'])
}

/// Ends with a period and the character before it, if any, is no period.
pub open spec fn single_final_period(s: Seq<char>) -> bool {
    s.len() >= 1 && s.last() == '.' && (s.len() >= 2 ==> s[s.len() - 2] != '.')
}

/// No two commas stand next to each other.
pub open spec fn no_double_comma(s: Seq<char>) -> bool {
    forall|i: int| 0 <= i < s.len() - 1 ==> !((#[trigger] s[i]) == ',' && s[i + 1] == ',')
}

// --------------------------------------------------------------------------
// The engine
// --------------------------------------------------------------------------

/// The stateful generation engine; build one per session, as sentence
/// generation consumes the static first sentence.
pub struct LoremGenerator {
    rng: rand::rngs::ThreadRng,
    wordlist: Vec<String>,
    first_sentence: String,
    config: LoremConfig,
}

impl LoremGenerator {
    /// The vocabulary the engine draws from.
    pub closed spec fn vocab(self) -> Seq<Seq<char>> {
        seq_views(self.wordlist@)
    }

    /// The stored first sentence of the source text.
    pub closed spec fn first_sentence_view(self) -> Seq<char> {
        self.first_sentence@
    }

    /// The active configuration.
    pub closed spec fn cfg(self) -> LoremConfig {
        self.config
    }

    pub open spec fn wf(self) -> bool {
        self.cfg().wf() && strict_sorted(self.vocab())
    }

    /// The vocabulary, the first sentence and every configuration field
    /// but the one named are unchanged.
    pub open spec fn same_but_flag(self, other: LoremGenerator) -> bool {
        self.vocab() == other.vocab() && self.first_sentence_view()
            == other.first_sentence_view() && self.cfg().words_count
            == other.cfg().words_count && self.cfg().sentences_count
            == other.cfg().sentences_count && self.cfg().paragraphs_count
            == other.cfg().paragraphs_count && self.cfg().comma_probability
            == other.cfg().comma_probability
    }

    /// Build an engine from a placeholder: derive the vocabulary and the
    /// first sentence, and apply the default configuration.
    pub fn new_from_placeholder(placeholder: &Placeholder) -> (r: Self)
        ensures
            r.wf(),
            strict_sorted(r.vocab()),
            r.vocab().to_set() == vocab_set(placeholder.text()),
            r.first_sentence_view() == first_sentence_spec(placeholder.text()),
            r.cfg() == LoremConfig::default_spec(),
    {
        let text = placeholder.resolve();
        LoremGenerator {
            rng: fresh_rng(),
            wordlist: get_wordlist(text.as_str()),
            first_sentence: get_first_sentence(text.as_str()),
            config: LoremConfig::default(),
        }
    }

    /// Build an engine straight from a source text.
    pub fn new_from_string(string: String) -> (r: Self)
        ensures
            r.wf(),
            strict_sorted(r.vocab()),
            r.vocab().to_set() == vocab_set(string@),
            r.first_sentence_view() == first_sentence_spec(string@),
            r.cfg() == LoremConfig::default_spec(),
    {
        let placeholder = Placeholder::from(Some(string));
        Self::new_from_placeholder(&placeholder)
    }

    /// Replace the active configuration.
    pub fn set_config(&mut self, config: LoremConfig)
        ensures
            final(self).cfg() == config,
            final(self).vocab() == old(self).vocab(),
            final(self).first_sentence_view() == old(self).first_sentence_view(),
    {
        self.config = config;
    }
}

// --------------------------------------------------------------------------
// Generation
// --------------------------------------------------------------------------

pub trait GeneratorPublic {
    /// The state is fit for generation.
    spec fn gen_ready(&self) -> bool;

    fn generate_words(&mut self) -> (r: String)
        requires
            old(self).gen_ready(),
        ensures
            final(self).gen_ready(),
    ;

    fn generate_sentences(&mut self) -> (r: String)
        requires
            old(self).gen_ready(),
        ensures
            final(self).gen_ready(),
    ;

    fn generate_paragraphs(&mut self) -> (r: String)
        requires
            old(self).gen_ready(),
        ensures
            final(self).gen_ready(),
    ;
}

impl GeneratorPublic for LoremGenerator {
    open spec fn gen_ready(&self) -> bool {
        self.wf()
    }

    /// Resolve the word count, draw that many distinct words, decorate
    /// them with commas, capitalize the first, join, trim edge commas and
    /// close with a period.
    fn generate_words(&mut self) -> (r: String)
        ensures
            final(self).same_but_flag(*old(self)),
            final(self).cfg().static_first_sentence
                == old(self).cfg().static_first_sentence,
            words_output(old(self).vocab(), old(self).cfg().words_count, r@),
            r@.len() >= 1 && r@.last() == '.',
            all_clean(old(self).vocab()) ==> single_final_period(r@) && no_double_comma(r@),
            all_clean(old(self).vocab()) && r@.len() > 1 ==> !('a' <= r@[0] && r@[0] <= 'z'),
    {
        let wc = self.config.words_count;
        assert(self.config.comma_probability <= 0xffff_ffffusize);
        let denom = self.config.comma_probability as u32;
        let num = wc.resolve(&mut self.rng);
        let picked = sample_words(&self.wordlist, num, &mut self.rng);
        let mut commas: Vec<bool> = Vec::new();
        let pn = picked.len();
        let mut k: usize = 0;
        while k < pn
            invariant
                old(self).gen_ready(),
                self.same_but_flag(*old(self)),
                self.cfg() == old(self).cfg(),
                0 <= k <= pn,
                commas@.len() == k,
                denom >= 1,
            decreases pn - k,
        {
            let b = rng_one_in(&mut self.rng, denom);
            commas.push(b);
            k = k + 1;
        }
        let ghost ws = seq_views(picked@);
        let ghost cs = commas@;
        let ghost ds = decorate(ws, cs);
        let mut joined = String::new();
        let mut idx: usize = 0;
        proof {
            assert(ds.take(0) =~= Seq::<Seq<char>>::empty());
        }
        while idx < pn
            invariant
                pn == picked@.len(),
                ws == seq_views(picked@),
                cs == commas@,
                ds == decorate(ws, cs),
                cs.len() == ws.len() == pn,
                0 <= idx <= pn,
                joined@ == join_spaces(ds.take(idx as int)),
            decreases pn - idx,
        {
            let mut piece: String;
            if idx == 0 {
                piece = capitalize_first_letter(picked[0].as_str());
            } else {
                piece = picked[idx].clone();
            }
            if commas[idx] {
                push_char(&mut piece, ',');
            }
            proof {
                assert(piece@ =~= ds[idx as int]);
            }
            if idx > 0 {
                push_char(&mut joined, ' ');
            }
            joined.append(piece.as_str());
            proof {
                assert(ds.take(idx + 1).drop_last() =~= ds.take(idx as int));
                assert(ds.take(idx + 1).last() == ds[idx as int]);
                if idx == 0 {
                    assert(joined@ =~= join_spaces(ds.take(1)));
                } else {
                    let di = ds[idx as int];
                    assert(joined@ =~= join_spaces(ds.take(idx as int)) + seq![' '] + di);
                }
            }
            idx = idx + 1;
        }
        let mut r = trim_commas(joined.as_str());
        push_char(&mut r, '.');
        proof {
            assert(ds.take(pn as int) =~= ds);
            assert(r@ == render_words(ws, cs));
            assert(sampled_from(ws, old(self).vocab()));
            assert(count_capped(
                old(self).cfg().words_count,
                ws.len() as int,
                old(self).vocab().len() as int,
            )) by {
                assert(old(self).cfg().words_count.allows(num as int));
            }
            assert(words_output(old(self).vocab(), old(self).cfg().words_count, r@));
            if all_clean(old(self).vocab()) {
                lemma_sampled_clean(ws, old(self).vocab());
                lemma_render_words_shape(ws, cs);
                if ws.len() > 0 {
                    let c = ws[0][0];
                    assert(word_char(c));
                    assert(!('a' <= ascii_upper_char(c) && ascii_upper_char(c) <= 'z'));
                }
            }
        }
        r
    }

    /// Resolve the sentence count and concatenate that many word runs,
    /// replacing the first with the stored first sentence while the
    /// static mode is on; the mode is consumed by the call.
    fn generate_sentences(&mut self) -> (r: String)
        ensures
            final(self).same_but_flag(*old(self)),
            !final(self).cfg().static_first_sentence,
            sentences_output(
                old(self).vocab(),
                old(self).cfg().words_count,
                old(self).cfg().sentences_count,
                old(self).cfg().static_first_sentence,
                old(self).first_sentence_view(),
                r@,
            ),
            old(self).cfg().static_first_sentence && old(self).cfg().sentences_count
                == UnitCount::Num(1usize) ==> r@ == trim_ws_spec(
                old(self).first_sentence_view(),
            ),
    {
        let sc = self.config.sentences_count;
        let n = sc.resolve(&mut self.rng);
        let ghost use_first = self.config.static_first_sentence;
        let ghost fs = self.first_sentence@;
        let mut out = String::new();
        let ghost mut gens: Seq<Seq<char>> = Seq::empty();
        let mut i: usize = 0;
        proof {
            assert(chosen_sentences(gens, use_first, fs) =~= Seq::<Seq<char>>::empty());
            assert(out@ =~= concat_all(chosen_sentences(gens, use_first, fs)));
        }
        while i < n
            invariant
                old(self).gen_ready(),
                self.same_but_flag(*old(self)),
                self.config.static_first_sentence == use_first,
                use_first == old(self).cfg().static_first_sentence,
                fs == old(self).first_sentence_view(),
                0 <= i <= n,
                gens.len() == i,
                forall|j: int|
                    0 <= j < i ==> words_output(
                        old(self).vocab(),
                        old(self).cfg().words_count,
                        #[trigger] gens[j],
                    ),
                out@ == concat_all(chosen_sentences(gens, use_first, fs)),
            decreases n - i,
        {
            let ghost prev = chosen_sentences(gens, use_first, fs);
            let sentence = self.generate_words();
            if i == 0 && self.config.static_first_sentence {
                out.append(self.first_sentence.as_str());
            } else {
                out.append(sentence.as_str());
            }
            push_char(&mut out, ' ');
            proof {
                gens = gens.push(sentence@);
                let cur = chosen_sentences(gens, use_first, fs);
                assert(cur.drop_last() =~= prev);
                assert(cur.last() =~= (if i == 0 && use_first {
                    fs
                } else {
                    sentence@
                }) + seq![' ']);
                assert(out@ =~= concat_all(cur));
            }
            i = i + 1;
        }
        self.config.static_first_sentence = false;
        let r = trim_ws(out.as_str());
        proof {
            assert(sc.allows(gens.len() as int));
            assert(sentences_output(
                old(self).vocab(),
                old(self).cfg().words_count,
                old(self).cfg().sentences_count,
                use_first,
                fs,
                r@,
            ));
            if use_first && old(self).cfg().sentences_count == UnitCount::Num(1usize) {
                assert(gens.len() == 1);
                let cur = chosen_sentences(gens, use_first, fs);
                assert(cur.drop_last() =~= Seq::<Seq<char>>::empty());
                assert(concat_all(cur) =~= cur.last());
                assert(cur.last() =~= fs + seq![' ']);
                assert(fs + seq![' '] =~= fs.push(' '));
                crate::text::lemma_trim_by_push(fs, |c: char| crate::text::is_ws_char(c), ' ');
            }
        }
        r
    }

    /// Resolve the paragraph count and concatenate that many sentence
    /// groups, a blank line after each.
    fn generate_paragraphs(&mut self) -> (r: String)
        ensures
            final(self).same_but_flag(*old(self)),
            exists|paras: Seq<Seq<char>>|
                old(self).cfg().paragraphs_count.allows(paras.len() as int) && (forall|i: int|
                    0 <= i < paras.len() ==> sentences_output(
                        old(self).vocab(),
                        old(self).cfg().words_count,
                        old(self).cfg().sentences_count,
                        i == 0 && old(self).cfg().static_first_sentence,
                        old(self).first_sentence_view(),
                        #[trigger] paras[i],
                    )) && r@ == trim_ws_spec(concat_all(para_blocks(paras)))
                    && final(self).cfg().static_first_sentence == (old(
                    self,
                ).cfg().static_first_sentence && paras.len() == 0),
    {
        let pc = self.config.paragraphs_count;
        let n = pc.resolve(&mut self.rng);
        let ghost use_first = self.config.static_first_sentence;
        let mut out = String::new();
        let ghost mut paras: Seq<Seq<char>> = Seq::empty();
        let mut i: usize = 0;
        proof {
            assert(para_blocks(paras) =~= Seq::<Seq<char>>::empty());
            assert(out@ =~= concat_all(para_blocks(paras)));
        }
        while i < n
            invariant
                old(self).gen_ready(),
                self.same_but_flag(*old(self)),
                use_first == old(self).cfg().static_first_sentence,
                0 <= i <= n,
                paras.len() == i,
                self.config.static_first_sentence == (use_first && i == 0),
                forall|j: int|
                    0 <= j < i ==> sentences_output(
                        old(self).vocab(),
                        old(self).cfg().words_count,
                        old(self).cfg().sentences_count,
                        j == 0 && use_first,
                        old(self).first_sentence_view(),
                        #[trigger] paras[j],
                    ),
                out@ == concat_all(para_blocks(paras)),
            decreases n - i,
        {
            let ghost prev = para_blocks(paras);
            let group = self.generate_sentences();
            out.append(group.as_str());
            push_char(&mut out, '\n');
            push_char(&mut out, '\n');
            proof {
                paras = paras.push(group@);
                let cur = para_blocks(paras);
                assert(cur.drop_last() =~= prev);
                assert(cur.last() =~= group@ + seq!['\n', '\n']);
                assert(out@ =~= concat_all(cur));
            }
            i = i + 1;
        }
        let r = trim_ws(out.as_str());
        proof {
            assert(pc.allows(paras.len() as int));
        }
        r
    }
}

// --------------------------------------------------------------------------
// Laws of the assembled output
// --------------------------------------------------------------------------

/// A decorated word: a clean word, possibly capitalized, with at most one
/// trailing comma.
pub open spec fn piece_shape(s: Seq<char>) -> bool {
    s.len() >= 1 && word_char(s[0]) && forall|i: int|
        0 <= i < s.len() ==> (word_char(#[trigger] s[i]) || (i == s.len() - 1 && s[i] == ','))
}

/// What joining decorated words with single spaces yields: it opens with
/// a word character, never ends in a space, holds no two adjacent commas,
/// and every comma follows a word character.
pub open spec fn joined_shape(j: Seq<char>) -> bool {
    (j.len() > 0 ==> word_char(j[0])) && (j.len() > 0 ==> (word_char(j.last()) || j.last()
        == ',')) && (forall|i: int|
        0 <= i < j.len() ==> (word_char(#[trigger] j[i]) || j[i] == ',' || j[i] == ' ')) && (
    forall|i: int|
        0 <= i < j.len() - 1 ==> !((#[trigger] j[i]) == ',' && j[i + 1] == ',')) && (forall|
        i: int,
    |
        1 <= i < j.len() && (#[trigger] j[i]) == ',' ==> word_char(j[i - 1]))
}

/// Capitalizing a clean word keeps it clean and uppercases exactly its
/// first character.
pub proof fn lemma_cap_first_clean(w: Seq<char>)
    requires
        clean_word(w),
    ensures
        clean_word(cap_first(w)),
        cap_first(w).len() == w.len(),
        cap_first(w)[0] == ascii_upper_char(w[0]),
{
    assert(word_char(w[0]));
    let u = ascii_upper_char(w[0]);
    assert(word_char(u));
    assert(cap_first(w) =~= seq![u] + w.skip(1));
    assert forall|i: int| 0 <= i < cap_first(w).len() implies word_char(
        #[trigger] cap_first(w)[i],
    ) by {
        if i > 0 {
            assert(cap_first(w)[i] == w[i]);
        }
    }
}

proof fn lemma_decorate_pieces(ws: Seq<Seq<char>>, cs: Seq<bool>)
    requires
        all_clean(ws),
        cs.len() == ws.len(),
    ensures
        forall|i: int| 0 <= i < ws.len() ==> piece_shape(#[trigger] decorate(ws, cs)[i]),
        ws.len() > 0 ==> decorate(ws, cs)[0][0] == ascii_upper_char(ws[0][0]),
{
    let ds = decorate(ws, cs);
    assert forall|i: int| 0 <= i < ws.len() implies piece_shape(#[trigger] ds[i]) by {
        let body = if i == 0 {
            cap_first(ws[i])
        } else {
            ws[i]
        };
        if i == 0 {
            lemma_cap_first_clean(ws[0]);
        }
        assert(clean_word(body));
        assert(ds[i] == body + (if cs[i] {
            seq![',']
        } else {
            Seq::<char>::empty()
        }));
        assert forall|k: int| 0 <= k < ds[i].len() implies (word_char(#[trigger] ds[i][k]) || (
        k == ds[i].len() - 1 && ds[i][k] == ',')) by {
            if k < body.len() {
                assert(ds[i][k] == body[k]);
            }
        }
    }
    if ws.len() > 0 {
        lemma_cap_first_clean(ws[0]);
    }
}

proof fn lemma_join_shape(ds: Seq<Seq<char>>)
    requires
        forall|i: int| 0 <= i < ds.len() ==> piece_shape(#[trigger] ds[i]),
    ensures
        joined_shape(join_spaces(ds)),
        ds.len() > 0 ==> join_spaces(ds).len() >= 1 && join_spaces(ds)[0] == ds[0][0],
    decreases ds.len(),
{
    if ds.len() <= 1 {
    } else {
        lemma_join_shape(ds.drop_last());
        let j0 = join_spaces(ds.drop_last());
        let p = ds.last();
        let j = join_spaces(ds);
        let l0 = j0.len() as int;
        assert(ds.drop_last()[0] == ds[0]);
        assert(j == j0 + seq![' '] + p);
        assert(j.len() == l0 + 1 + p.len());
        assert forall|i: int| 0 <= i < j.len() implies (word_char(#[trigger] j[i]) || j[i]
            == ',' || j[i] == ' ') by {
            if i < l0 {
                assert(j[i] == j0[i]);
            } else if i == l0 {
                assert(j[i] == ' ');
            } else {
                assert(j[i] == p[i - l0 - 1]);
            }
        }
        assert forall|i: int| 0 <= i < j.len() - 1 implies !((#[trigger] j[i]) == ',' && j[i
            + 1] == ',') by {
            if i + 1 < l0 {
                assert(j[i] == j0[i] && j[i + 1] == j0[i + 1]);
            } else if i + 1 == l0 {
                assert(j[i + 1] == j0.last() || true);
            } else if i == l0 {
                assert(j[i] == ' ');
            } else if i + 1 == l0 + 1 {
                assert(j[i] == ' ' || true);
                assert(j[i + 1] == p[0]);
                assert(word_char(p[0]));
            } else {
                assert(j[i] == p[i - l0 - 1] && j[i + 1] == p[i - l0]);
                if p[i - l0 - 1] == ',' {
                    assert(i - l0 - 1 == p.len() - 1);
                }
            }
        }
        assert forall|i: int| 1 <= i < j.len() && (#[trigger] j[i]) == ',' implies word_char(
            j[i - 1],
        ) by {
            if i < l0 {
                assert(j[i] == j0[i] && j[i - 1] == j0[i - 1]);
            } else if i == l0 {
                assert(j[i] == ' ');
            } else {
                let k = i - l0 - 1;
                assert(j[i] == p[k]);
                if k == 0 {
                    assert(word_char(p[0]));
                } else {
                    assert(k == p.len() - 1);
                    assert(word_char(p[k - 1]));
                    assert(j[i - 1] == p[k - 1]);
                }
            }
        }
        assert(j[0] == j0[0]);
        assert(j.last() == p.last() || p.len() == 0);
    }
}

/// The shape of a words-level result built from clean words: it ends in
/// exactly one period, holds no double comma, and when any word was drawn
/// it opens with the capitalized first character of the first word.
pub proof fn lemma_render_words_shape(ws: Seq<Seq<char>>, cs: Seq<bool>)
    requires
        all_clean(ws),
        cs.len() == ws.len(),
    ensures
        single_final_period(render_words(ws, cs)),
        no_double_comma(render_words(ws, cs)),
        ws.len() == 0 ==> render_words(ws, cs).len() == 1,
        ws.len() > 0 ==> render_words(ws, cs).len() > 1 && render_words(ws, cs)[0]
            == ascii_upper_char(ws[0][0]),
{
    let ds = decorate(ws, cs);
    let j = join_spaces(ds);
    let p = (|c: char| c == ',');
    let r = render_words(ws, cs);
    lemma_decorate_pieces(ws, cs);
    lemma_join_shape(ds);
    if ws.len() == 0 {
        assert(ds =~= Seq::<Seq<char>>::empty());
        assert(j =~= Seq::<char>::empty());
        lemma_trim_end_take(j, p, 0);
        lemma_trim_start_skip(j.take(0), p, 0);
        assert(trim_commas_spec(j) =~= Seq::<char>::empty());
        assert(r =~= seq!['.']);
    } else {
        assert(joined_shape(j));
        assert(j.len() >= 1);
        assert(j[0] == ds[0][0]);
        let t = if j.last() == ',' {
            j.take(j.len() - 1)
        } else {
            j
        };
        if j.last() == ',' {
            assert(j.len() >= 2) by {
                if j.len() == 1 {
                    assert(word_char(j[0]) && j[0] == ',');
                }
            }
            assert(word_char(j[j.len() - 2]));
            lemma_trim_end_take(j, p, j.len() - 1);
        } else {
            lemma_trim_end_take(j, p, j.len() as int);
            assert(j.take(j.len() as int) =~= j);
            assert(word_char(j.last()));
        }
        assert(crate::text::trim_end_by(j, p) == t);
        assert(t.len() >= 1);
        assert(t[0] == j[0]);
        assert(word_char(t.last()));
        lemma_trim_start_skip(t, p, 0);
        assert(t.skip(0) =~= t);
        assert(trim_commas_spec(j) == t);
        assert(r == t.push('.'));
        assert(single_final_period(r)) by {
            assert(r.last() == '.');
            assert(r[r.len() - 2] == t.last());
        }
        assert(no_double_comma(r)) by {
            assert forall|i: int| 0 <= i < r.len() - 1 implies !((#[trigger] r[i]) == ','
                && r[i + 1] == ',') by {
                if i + 1 < t.len() {
                    assert(r[i] == t[i] && r[i + 1] == t[i + 1]);
                    assert(t[i] == j[i] && t[i + 1] == j[i + 1]);
                } else {
                    assert(r[i + 1] == '.');
                }
            }
        }
        assert(r[0] == t[0]);
        assert(r[0] == ascii_upper_char(ws[0][0]));
    }
}

/// Words drawn from a clean vocabulary are clean.
pub proof fn lemma_sampled_clean(ws: Seq<Seq<char>>, vocab: Seq<Seq<char>>)
    requires
        sampled_from(ws, vocab),
        all_clean(vocab),
    ensures
        all_clean(ws),
{
    broadcast use vstd::seq_lib::group_to_multiset_ensures;

    assert forall|i: int| 0 <= i < ws.len() implies clean_word(#[trigger] ws[i]) by {
        assert(ws.contains(ws[i]));
        assert(ws.to_multiset().count(ws[i]) > 0);
        assert(vocab.to_multiset().count(ws[i]) > 0);
        assert(vocab.contains(ws[i]));
        let k = choose|k: int| 0 <= k < vocab.len() && vocab[k] == ws[i];
        assert(clean_word(vocab[k]));
    }
}

/// A consumed static-first-sentence mode makes the output independent of
/// the stored first sentence: nothing of it is reused.
pub proof fn lemma_first_sentence_not_reused(
    vocab: Seq<Seq<char>>,
    wc: UnitCount,
    sc: UnitCount,
    fs1: Seq<char>,
    fs2: Seq<char>,
    out: Seq<char>,
)
    ensures
        sentences_output(vocab, wc, sc, false, fs1, out) == sentences_output(
            vocab,
            wc,
            sc,
            false,
            fs2,
            out,
        ),
{
    assert forall|gens: Seq<Seq<char>>|
        #[trigger] chosen_sentences(gens, false, fs1) == chosen_sentences(
            gens,
            false,
            fs2,
        ) by {
        assert(chosen_sentences(gens, false, fs1) =~= chosen_sentences(gens, false, fs2));
    }
    if sentences_output(vocab, wc, sc, false, fs1, out) {
        let gens = choose|gens: Seq<Seq<char>>|
            sc.allows(gens.len() as int) && (forall|i: int|
                0 <= i < gens.len() ==> words_output(vocab, wc, #[trigger] gens[i])) && out
                == trim_ws_spec(concat_all(#[trigger] chosen_sentences(gens, false, fs1)));
        assert(out == trim_ws_spec(concat_all(chosen_sentences(gens, false, fs2))));
    }
    if sentences_output(vocab, wc, sc, false, fs2, out) {
        let gens = choose|gens: Seq<Seq<char>>|
            sc.allows(gens.len() as int) && (forall|i: int|
                0 <= i < gens.len() ==> words_output(vocab, wc, #[trigger] gens[i])) && out
                == trim_ws_spec(concat_all(#[trigger] chosen_sentences(gens, false, fs2)));
        assert(out == trim_ws_spec(concat_all(chosen_sentences(gens, false, fs1))));
    }
}

/// Some character of piece i stands somewhere in the concatenation.
proof fn lemma_concat_has_char(xs: Seq<Seq<char>>, i: int, k: int)
    requires
        0 <= i < xs.len(),
        0 <= k < xs[i].len(),
    ensures
        exists|m: int|
            0 <= m < concat_all(xs).len() && #[trigger] concat_all(xs)[m] == xs[i][k],
    decreases xs.len(),
{
    if i == xs.len() - 1 {
        let m = concat_all(xs.drop_last()).len() + k;
        assert(concat_all(xs)[m] == xs[i][k]);
    } else {
        assert(xs.drop_last()[i] == xs[i]);
        lemma_concat_has_char(xs.drop_last(), i, k);
        let m = choose|m: int|
            0 <= m < concat_all(xs.drop_last()).len() && #[trigger] concat_all(
                xs.drop_last(),
            )[m] == xs[i][k];
        assert(concat_all(xs)[m] == xs[i][k]);
    }
}

/// A sentences-level output with at least one sentence is nonempty and
/// carries no whitespace at its edges.
pub proof fn lemma_sentences_output_edges(
    vocab: Seq<Seq<char>>,
    wc: UnitCount,
    sc: UnitCount,
    use_first: bool,
    fs: Seq<char>,
    out: Seq<char>,
)
    requires
        sentences_output(vocab, wc, sc, use_first, fs, out),
        forall|n: int| sc.allows(n) ==> n >= 1,
        fs.len() > 0 && fs.last() == '.',
    ensures
        out.len() > 0,
        !is_ws_char(out[0]),
        !is_ws_char(out.last()),
{
    let pws = (|c: char| is_ws_char(c));
    let gens = choose|gens: Seq<Seq<char>>|
        sc.allows(gens.len() as int) && (forall|i: int|
            0 <= i < gens.len() ==> words_output(vocab, wc, #[trigger] gens[i])) && out
            == trim_ws_spec(concat_all(#[trigger] chosen_sentences(gens, use_first, fs)));
    let n = gens.len() as int;
    assert(n >= 1);
    let ch = chosen_sentences(gens, use_first, fs);
    if use_first {
        assert(ch[0] == fs + seq![' ']);
        assert(ch[0][fs.len() - 1] == '.');
        lemma_concat_has_char(ch, 0, fs.len() - 1);
    } else {
        assert(words_output(vocab, wc, gens[0]));
        let ws0 = choose|ws0: Seq<Seq<char>>, cs0: Seq<bool>|
            sampled_from(ws0, vocab) && cs0.len() == ws0.len() && count_capped(
                wc,
                ws0.len() as int,
                vocab.len() as int,
            ) && gens[0] == #[trigger] render_words(ws0, cs0);
        assert(gens[0].len() >= 1 && gens[0].last() == '.');
        assert(ch[0] == gens[0] + seq![' ']);
        assert(ch[0][gens[0].len() - 1] == '.');
        lemma_concat_has_char(ch, 0, gens[0].len() - 1);
    }
    let m = choose|m: int|
        0 <= m < concat_all(ch).len() && #[trigger] concat_all(ch)[m] == '.';
    lemma_trim_by_nonempty(concat_all(ch), pws, m);
    lemma_trim_by_edges(concat_all(ch), pws);
}

/// A paragraphs-level output of exactly two groups, each of at least one
/// sentence, is the first group, one blank line, then the second, with no
/// leading or trailing blank lines.
pub proof fn lemma_paragraphs_layout(
    vocab: Seq<Seq<char>>,
    wc: UnitCount,
    sc: UnitCount,
    use_first: bool,
    fs: Seq<char>,
    paras: Seq<Seq<char>>,
    out: Seq<char>,
)
    requires
        paras.len() == 2,
        sentences_output(vocab, wc, sc, use_first, fs, paras[0]),
        sentences_output(vocab, wc, sc, false, fs, paras[1]),
        forall|n: int| sc.allows(n) ==> n >= 1,
        fs.len() > 0 && fs.last() == '.',
        out == trim_ws_spec(concat_all(para_blocks(paras))),
    ensures
        paras[0].len() > 0 && paras[1].len() > 0,
        out == paras[0] + seq!['\n', '\n'] + paras[1],
        !is_ws_char(out[0]),
        !is_ws_char(out.last()),
{
    lemma_sentences_output_edges(vocab, wc, sc, use_first, fs, paras[0]);
    lemma_sentences_output_edges(vocab, wc, sc, false, fs, paras[1]);
    assert(paras =~= seq![paras[0], paras[1]]);
    lemma_two_paragraphs(paras[0], paras[1], out);
}

/// With exactly two sentence groups the output is the first group, one
/// blank line, then the second, with no blank lines at the edges.
pub proof fn lemma_two_paragraphs(p0: Seq<char>, p1: Seq<char>, out: Seq<char>)
    requires
        p0.len() > 0 && !is_ws_char(p0[0]) && !is_ws_char(p0.last()),
        p1.len() > 0 && !is_ws_char(p1[0]) && !is_ws_char(p1.last()),
        out == trim_ws_spec(concat_all(para_blocks(seq![p0, p1]))),
    ensures
        out == p0 + seq!['\n', '\n'] + p1,
        !is_ws_char(out[0]),
        !is_ws_char(out.last()),
{
    let pws = (|c: char| is_ws_char(c));
    let blocks = para_blocks(seq![p0, p1]);
    let whole = concat_all(blocks);
    assert(blocks.drop_last() =~= seq![p0 + seq!['\n', '\n']]);
    assert(blocks.last() == p1 + seq!['\n', '\n']);
    assert(seq![p0 + seq!['\n', '\n']].drop_last() =~= Seq::<Seq<char>>::empty());
    assert(concat_all(Seq::<Seq<char>>::empty()) =~= Seq::<char>::empty());
    assert(concat_all(seq![p0 + seq!['\n', '\n']]) =~= p0 + seq!['\n', '\n']);
    let core = p0 + seq!['\n', '\n'] + p1;
    assert(whole =~= core.push('\n').push('\n'));
    lemma_trim_by_push(core.push('\n'), pws, '\n');
    lemma_trim_by_push(core, pws, '\n');
    assert(trim_ws_spec(whole) == trim_ws_spec(core));
    lemma_trim_end_take(core, pws, core.len() as int);
    assert(core.take(core.len() as int) =~= core);
    lemma_trim_start_skip(core, pws, 0);
    assert(core.skip(0) =~= core);
    assert(out == core);
}

} // verus!
