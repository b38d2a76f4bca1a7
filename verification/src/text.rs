//! Characters, case folding, and wildcard-template matching.
//!
//! A template is a fixed-length pattern over letters and the wildcard `'_'`.
//! A template matches a word exactly when the lengths agree and every
//! non-wildcard template character equals the corresponding word character,
//! comparing the template case-insensitively.

use vstd::prelude::*;

verus! {

/// The wildcard marker used in templates and in unfilled grid cells.
pub open spec fn wildcard() -> char {
    '_'
}

/// A lowercase ASCII letter, the only concrete content of a solved grid cell.
pub open spec fn is_lower_letter(c: char) -> bool {
    97 <= c as u32 <= 122
}

/// A character a grid cell may hold: a lowercase letter or the wildcard.
pub open spec fn is_cell_char(c: char) -> bool {
    is_lower_letter(c) || c == wildcard()
}

/// ASCII case folding of one character: `'A'..='Z'` map to `'a'..='z'`,
/// everything else is unchanged.
pub open spec fn fold_char(c: char) -> char {
    if 65 <= c as u32 <= 90 {
        ((c as u32 + 32) as u8) as char
    } else {
        c
    }
}

/// ASCII case folding of a whole character sequence.
pub open spec fn fold_seq(s: Seq<char>) -> Seq<char> {
    s.map_values(|c: char| fold_char(c))
}

/// Matching of an already-folded template `t` against a word `w`: equal
/// lengths, and every non-wildcard position of `t` equals that of `w`.
pub open spec fn matches_folded(t: Seq<char>, w: Seq<char>) -> bool {
    &&& t.len() == w.len()
    &&& forall|i: int| 0 <= i < t.len() && t[i] != wildcard() ==> t[i] == w[i]
}

/// Template matching as the dictionary performs it: the template is folded
/// to lowercase first, so it is case-insensitive on the template side;
/// templates of a different length than the word never match.
pub open spec fn template_matches(t: Seq<char>, w: Seq<char>) -> bool {
    matches_folded(fold_seq(t), w)
}

/// Folding never produces or removes a wildcard, so matching a template is
/// the same as matching its folded form position by position.
pub proof fn lemma_template_matches_unfolded(t: Seq<char>, w: Seq<char>)
    ensures
        template_matches(t, w) <==> (t.len() == w.len() && forall|i: int|
            0 <= i < t.len() && t[i] != wildcard() ==> fold_char(t[i]) == w[i]),
{
    assert(forall|i: int| 0 <= i < t.len() ==> fold_seq(t)[i] == fold_char(t[i]));
    assert(forall|c: char| (fold_char(c) == wildcard()) == (c == wildcard()));
}

/// A sequence of cell characters (lowercase letters and wildcards) is its own
/// folded form, so for such templates matching needs no folding.
pub(crate) proof fn lemma_fold_seq_identity(t: Seq<char>)
    requires
        forall|i: int| 0 <= i < t.len() ==> is_cell_char(#[trigger] t[i]),
    ensures
        fold_seq(t) =~= t,
{
}

/// Executable ASCII case folding of one character.
pub fn fold_char_exec(c: char) -> (r: char)
    ensures
        r == fold_char(c),
{
    let u = c as u32;
    if 65 <= u && u <= 90 {
        ((u + 32) as u8) as char
    } else {
        c
    }
}

/// The characters of a string slice, as a vector.
pub fn chars_of(s: &str) -> (r: Vec<char>)
    ensures
        r@ == s@,
{
    let mut r: Vec<char> = Vec::new();
    for c in it: s.chars()
        invariant
            r@ =~= it.seq().take(it.index() as int),
    {
        r.push(c);
    }
    assert(r@ =~= s@);
    r
}

/// The characters of a string slice, folded to lowercase.
pub fn folded_chars_of(s: &str) -> (r: Vec<char>)
    ensures
        r@ == fold_seq(s@),
{
    let cs = chars_of(s);
    let mut r: Vec<char> = Vec::new();
    let mut i: usize = 0;
    while i < cs.len()
        invariant
            i <= cs.len(),
            cs@ == s@,
            r@ =~= fold_seq(s@).take(i as int),
        decreases cs.len() - i,
    {
        r.push(fold_char_exec(cs[i]));
        i = i + 1;
        assert(r@ =~= fold_seq(s@).take(i as int));
    }
    assert(r@ =~= fold_seq(s@));
    r
}

/// Relies on `String::push`: it appends the given character to the string.
#[verifier::external_body]
pub fn push_char(s: &mut String, c: char)
    ensures
        final(s)@ == old(s)@.push(c),
{
    s.push(c)
}

/// The characters of `w`, collected into an owned string.
pub fn string_of(w: &Vec<char>) -> (r: String)
    ensures
        r@ == w@,
{
    let mut r = String::new();
    let mut i: usize = 0;
    while i < w.len()
        invariant
            i <= w.len(),
            r@ =~= w@.take(i as int),
        decreases w.len() - i,
    {
        push_char(&mut r, w[i]);
        i = i + 1;
        assert(r@ =~= w@.take(i as int));
    }
    assert(r@ =~= w@);
    r
}

/// What `char::is_alphanumeric` returns for a character: a result of the
/// Unicode property tables, depending on the character alone.
pub uninterp spec fn alphanumeric_char(c: char) -> bool;

/// Relies on `char::is_alphanumeric`: the result depends on the character
/// alone, read from the Unicode `Alphabetic` and `Number` property tables.
#[verifier::external_body]
pub fn is_alphanumeric_exec(c: char) -> (r: bool)
    ensures
        r == alphanumeric_char(c),
{
    c.is_alphanumeric()
}

/// Whether the already-folded template `t` matches the word `w`.
pub fn matches_folded_exec(t: &Vec<char>, w: &Vec<char>) -> (r: bool)
    ensures
        r == matches_folded(t@, w@),
{
    if t.len() != w.len() {
        return false;
    }
    let mut i: usize = 0;
    while i < t.len()
        invariant
            i <= t.len(),
            t.len() == w.len(),
            forall|j: int| 0 <= j < i && t@[j] != wildcard() ==> t@[j] == w@[j],
        decreases t.len() - i,
    {
        if t[i] != '_' && t[i] != w[i] {
            return false;
        }
        i = i + 1;
    }
    true
}

} // verus!
