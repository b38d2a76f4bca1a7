//! An immutable word set with exact membership and wildcard-template search.

use vstd::prelude::*;
use vstd::seq_lib::group_seq_properties;

use crate::text::{
    alphanumeric_char, chars_of, fold_seq, folded_chars_of, matches_folded_exec, string_of,
    template_matches,
};

verus! {

/// A dictionary: a set of word strings, fixed after construction. The view is
/// the sequence of stored words as character sequences; construction through
/// [`Dictionary::from_words`] guarantees the stored words are folded to
/// lowercase and pairwise distinct, but the matching contracts below hold of
/// any contents.
pub struct Dictionary {
    words: Vec<String>,
}

/// The stored words of a word list, as character sequences.
pub open spec fn words_view(v: Seq<String>) -> Seq<Seq<char>> {
    v.map_values(|x: String| x@)
}

/// The words of a word list, folded to lowercase, as character sequences.
pub open spec fn folded_view(v: Seq<String>) -> Seq<Seq<char>> {
    v.map_values(|x: String| fold_seq(x@))
}

/// The words that match template `t` in dictionary contents `d`, in storage
/// order.
pub open spec fn search_spec(d: Seq<Seq<char>>, t: Seq<char>) -> Seq<Seq<char>> {
    d.filter(|w: Seq<char>| template_matches(t, w))
}

/// How many words match template `t` in dictionary contents `d`.
pub open spec fn count_spec(d: Seq<Seq<char>>, t: Seq<char>) -> nat {
    search_spec(d, t).len()
}

impl View for Dictionary {
    type V = Seq<Seq<char>>;

    closed spec fn view(&self) -> Seq<Seq<char>> {
        words_view(self.words@)
    }
}

impl Clone for Dictionary {
    fn clone(&self) -> (r: Self)
        ensures
            r@ == self@,
    {
        let words = self.words.clone();
        assert(words@.map_values(|w: String| w@) =~= words_view(self.words@)) by {
            assert(forall|i: int| 0 <= i < self.words@.len() ==> words@[i]@ == self.words@[i]@);
        }
        Dictionary { words }
    }
}

/// Whether some word of `v` reads as the character sequence `s`.
fn holds_word(v: &Vec<String>, s: &String) -> (r: bool)
    ensures
        r == words_view(v@).contains(s@),
{
    let ghost dv = words_view(v@);
    let mut i: usize = 0;
    while i < v.len()
        invariant
            i <= v.len(),
            dv == words_view(v@),
            forall|j: int| 0 <= j < i ==> dv[j] != s@,
        decreases v.len() - i,
    {
        if v[i].eq(s) {
            assert(dv[i as int] == s@);
            return true;
        }
        i = i + 1;
    }
    false
}

impl Dictionary {
    /// Exact membership: whether `word`, taken as it is, is a stored word.
    /// Stored words are lowercase after [`Dictionary::from_words`], so a query
    /// must be lowercase to succeed; an absent word yields `false`.
    pub fn contains(&self, word: &str) -> (r: bool)
        ensures
            r == self@.contains(word@),
    {
        let w: String = word.to_owned();
        holds_word(&self.words, &w)
    }

    /// Every stored word that the template matches: equal length, wildcard
    /// positions free, all other template characters matched exactly after
    /// folding the template to lowercase.
    pub fn search_with_template(&self, template: &str) -> (r: Vec<String>)
        ensures
            words_view(r@) == search_spec(self@, template@),
    {
        broadcast use group_seq_properties;

        let ghost d = self@;
        let ghost pred = |w: Seq<char>| template_matches(template@, w);
        let tmp = folded_chars_of(template);
        let mut r: Vec<String> = Vec::new();
        let mut i: usize = 0;
        while i < self.words.len()
            invariant
                i <= self.words.len(),
                d == self@,
                d.len() == self.words@.len(),
                tmp@ == fold_seq(template@),
                pred == (|w: Seq<char>| template_matches(template@, w)),
                words_view(r@) =~= d.take(i as int).filter(pred),
            decreases self.words.len() - i,
        {
            let ghost prefix = d.take(i as int);
            let wc = chars_of(self.words[i].as_str());
            assert(wc@ == d[i as int]);
            if matches_folded_exec(&tmp, &wc) {
                r.push(self.words[i].clone());
            }
            i = i + 1;
            proof {
                assert(d.take(i as int) =~= prefix + seq![d[i - 1]]);
                Seq::filter_distributes_over_add(prefix, seq![d[i - 1]], pred);
                reveal_with_fuel(Seq::filter, 2);
                assert(seq![d[i - 1]].drop_last() =~= Seq::<Seq<char>>::empty());
                assert(words_view(r@) =~= d.take(i as int).filter(pred));
            }
        }
        proof {
            assert(d.take(d.len() as int) =~= d);
        }
        r
    }

    /// The number of stored words the template matches; the cardinality of
    /// [`Dictionary::search_with_template`], used as an existence probe.
    pub fn count_with_template(&self, template: &str) -> (r: usize)
        ensures
            r == count_spec(self@, template@),
    {
        self.search_with_template(template).len()
    }

    /// Build a dictionary from a stream of words, folding each to lowercase
    /// and dropping duplicates, so that membership and template matching
    /// behave uniformly regardless of source casing. The stored words are
    /// exactly the folded forms of the input words, each kept once.
    pub fn from_words(words: Vec<String>) -> (d: Dictionary)
        ensures
            forall|i: int|
                0 <= i < words@.len() ==> d@.contains(#[trigger] folded_view(words@)[i]),
            forall|k: int| 0 <= k < d@.len() ==> folded_view(words@).contains(#[trigger] d@[k]),
            d@.no_duplicates(),
    {
        let ghost fw = folded_view(words@);
        let mut kept: Vec<String> = Vec::new();
        let mut i: usize = 0;
        while i < words.len()
            invariant
                i <= words.len(),
                fw == folded_view(words@),
                fw.len() == words@.len(),
                forall|j: int| 0 <= j < i ==> words_view(kept@).contains(#[trigger] fw[j]),
                forall|k: int|
                    0 <= k < kept@.len() ==> fw.take(i as int).contains(
                        #[trigger] words_view(kept@)[k],
                    ),
                words_view(kept@).no_duplicates(),
            decreases words.len() - i,
        {
            let ghost prev = words_view(kept@);
            let folded = folded_chars_of(words[i].as_str());
            let s = string_of(&folded);
            let ghost sv = s@;
            proof {
                assert(sv == fw[i as int]);
            }
            if !holds_word(&kept, &s) {
                kept.push(s);
                proof {
                    let cur = words_view(kept@);
                    assert(cur =~= prev.push(sv));
                    assert forall|j: int| 0 <= j < i + 1 implies cur.contains(#[trigger] fw[j]) by {
                        if j < i {
                            let k = choose|k: int| 0 <= k < prev.len() && prev[k] == fw[j];
                            assert(cur[k] == fw[j]);
                        } else {
                            assert(cur[prev.len() as int] == fw[j]);
                        }
                    }
                    assert forall|k: int| 0 <= k < cur.len() implies fw.take(i + 1).contains(
                        #[trigger] cur[k],
                    ) by {
                        if k < prev.len() {
                            let m = choose|m: int|
                                0 <= m < fw.take(i as int).len() && fw.take(i as int)[m] == prev[k];
                            assert(fw.take(i + 1)[m] == cur[k]);
                        } else {
                            assert(fw.take(i + 1)[i as int] == cur[k]);
                        }
                    }
                    assert(cur.no_duplicates()) by {
                        assert(forall|p: int, q: int|
                            0 <= p < q < cur.len() && q < prev.len() ==> cur[p] != cur[q]);
                        assert forall|p: int| 0 <= p < prev.len() implies cur[p] != sv by {
                            if cur[p] == sv {
                                assert(prev[p] == sv);
                                assert(prev.contains(sv));
                            }
                        }
                    }
                }
            } else {
                proof {
                    assert(words_view(kept@).contains(fw[i as int]));
                    assert forall|k: int| 0 <= k < kept@.len() implies fw.take(i + 1).contains(
                        #[trigger] words_view(kept@)[k],
                    ) by {
                        let m = choose|m: int|
                            0 <= m < fw.take(i as int).len() && fw.take(i as int)[m] == words_view(
                                kept@,
                            )[k];
                        assert(fw.take(i + 1)[m] == words_view(kept@)[k]);
                    }
                }
            }
            i = i + 1;
        }
        proof {
            assert(fw.take(words@.len() as int) =~= fw);
        }
        Dictionary { words: kept }
    }
}

/// Containment monotonicity of template search: the count equals the length
/// of the search result, and the count is positive exactly when the search
/// result is non-empty, which happens exactly when some stored word matches
/// the template.
pub proof fn lemma_containment_monotonicity(d: Seq<Seq<char>>, t: Seq<char>)
    ensures
        count_spec(d, t) == search_spec(d, t).len(),
        count_spec(d, t) > 0 <==> search_spec(d, t).len() > 0,
        count_spec(d, t) > 0 <==> exists|w: Seq<char>| d.contains(w) && template_matches(t, w),
{
    lemma_filter_nonempty(d, |w: Seq<char>| template_matches(t, w));
}

/// A filtered sequence is non-empty exactly when some element satisfies the
/// predicate.
proof fn lemma_filter_nonempty(d: Seq<Seq<char>>, pred: spec_fn(Seq<char>) -> bool)
    ensures
        d.filter(pred).len() > 0 <==> exists|w: Seq<char>| d.contains(w) && pred(w),
{
    if d.filter(pred).len() > 0 {
        Seq::lemma_filter_pred(d, pred, 0);
        lemma_filter_elements_from(d, pred, d.filter(pred)[0]);
    }
    if exists|w: Seq<char>| d.contains(w) && pred(w) {
        let w = choose|w: Seq<char>| d.contains(w) && pred(w);
        let i = choose|i: int| 0 <= i < d.len() && d[i] == w;
        Seq::lemma_filter_contains(d, pred, i);
    }
}

/// Every element of a filtered sequence comes from the original sequence.
proof fn lemma_filter_elements_from(d: Seq<Seq<char>>, pred: spec_fn(Seq<char>) -> bool, w: Seq<char>)
    requires
        d.filter(pred).contains(w),
    ensures
        d.contains(w),
    decreases d.len(),
{
    reveal(Seq::filter);
    if d.len() > 0 {
        if d.last() == w {
        } else {
            lemma_filter_elements_from(d.drop_last(), pred, w);
            assert(d.drop_last().contains(w));
            let i = choose|i: int| 0 <= i < d.drop_last().len() && d.drop_last()[i] == w;
            assert(d[i] == w);
        }
    }
}

/// A node of a template tree: a word together with the more specific
/// templates below it.
pub struct TemplateTreeNode {
    word: String,
    subtemplates: Vec<TemplateTreeNode>,
}

/// A tree of templates, from the most general template down.
pub struct TemplateTree {
    root_template: TemplateTreeNode,
}

impl TemplateTreeNode {
    /// The word this node holds.
    pub closed spec fn word_view(self) -> Seq<char> {
        self.word@
    }

    /// The templates below this node.
    pub closed spec fn sub_view(self) -> Seq<TemplateTreeNode> {
        self.subtemplates@
    }

    /// Whether the template matches this node's word: equal lengths, and
    /// every non-wildcard template character, folded to lowercase, equal to
    /// the corresponding word character.
    pub fn matches(&self, template: &str) -> (r: bool)
        ensures
            r == template_matches(template@, self.word_view()),
    {
        let tmp = folded_chars_of(template);
        let wc = chars_of(self.word.as_str());
        matches_folded_exec(&tmp, &wc)
    }
}

impl TemplateTree {
    /// The root template of the tree.
    pub closed spec fn root_view(self) -> TemplateTreeNode {
        self.root_template
    }

    /// The root node of the tree.
    pub fn root(&self) -> (r: &TemplateTreeNode)
        ensures
            *r == self.root_view(),
    {
        &self.root_template
    }

    /// A template tree over a dictionary, holding the all-wildcard template
    /// of width four at its root and nothing below it yet.
    pub fn from_dict(dict: Dictionary) -> (t: TemplateTree)
        ensures
            t.root_view().word_view() == "____"@,
            t.root_view().sub_view().len() == 0,
    {
        let _ = dict;
        TemplateTree {
            root_template: TemplateTreeNode { word: "____".to_owned(), subtemplates: Vec::new() },
        }
    }
}

/// Whether `word` is a valid dictionary word: more than two characters, every
/// character alphanumeric, and present in the dictionary.
pub fn is_valid_word(word: &str, dict: &Dictionary) -> (r: bool)
    ensures
        r == (word@.len() > 2 && (forall|i: int|
            0 <= i < word@.len() ==> alphanumeric_char(#[trigger] word@[i])) && dict@.contains(
            word@,
        )),
{
    let cs = chars_of(word);
    if cs.len() <= 2 {
        return false;
    }
    let mut i: usize = 0;
    while i < cs.len()
        invariant
            i <= cs.len(),
            cs@ == word@,
            forall|j: int| 0 <= j < i ==> alphanumeric_char(#[trigger] word@[j]),
        decreases cs.len() - i,
    {
        if !crate::text::is_alphanumeric_exec(cs[i]) {
            return false;
        }
        i = i + 1;
    }
    dict.contains(word)
}

} // verus!
