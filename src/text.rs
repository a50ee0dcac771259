//! Character classes, trimming, case folding, substring tests, and splitting
//! a text into whitespace-separated words.
use vstd::prelude::*;
use vstd::string::*;

verus! {

/// The characters with Unicode's `White_Space` property.
pub open spec fn is_white_space(c: char) -> bool {
    let u = c as u32;
    ||| 0x9 <= u <= 0xD
    ||| u == 0x20
    ||| u == 0x85
    ||| u == 0xA0
    ||| u == 0x1680
    ||| 0x2000 <= u <= 0x200A
    ||| u == 0x2028
    ||| u == 0x2029
    ||| u == 0x202F
    ||| u == 0x205F
    ||| u == 0x3000
}

/// `s` without its leading whitespace.
pub open spec fn trim_start(s: Seq<char>) -> Seq<char>
    decreases s.len(),
{
    if s.len() > 0 && is_white_space(s[0]) {
        trim_start(s.drop_first())
    } else {
        s
    }
}

/// `s` without its trailing whitespace.
pub open spec fn trim_end(s: Seq<char>) -> Seq<char>
    decreases s.len(),
{
    if s.len() > 0 && is_white_space(s.last()) {
        trim_end(s.drop_last())
    } else {
        s
    }
}

/// `s` without leading and trailing whitespace.
pub open spec fn trimmed(s: Seq<char>) -> Seq<char> {
    trim_end(trim_start(s))
}

/// `needle` occurs in `hay` as a contiguous run of characters.
pub open spec fn is_infix(needle: Seq<char>, hay: Seq<char>) -> bool {
    exists|p: int| 0 <= p && p + needle.len() <= hay.len() && #[trigger] hay.subrange(p, p + needle.len()) == needle
}

/// The maximal runs of non-whitespace characters of `s`, in order: each
/// character extends the last word when it follows one, starts a new word
/// after whitespace or at the start, and whitespace belongs to no word.
pub open spec fn words(s: Seq<char>) -> Seq<Seq<char>>
    decreases s.len(),
{
    if s.len() == 0 {
        Seq::empty()
    } else {
        let init = words(s.drop_last());
        let c = s.last();
        if is_white_space(c) {
            init
        } else if s.len() > 1 && !is_white_space(s[s.len() - 2]) {
            init.drop_last().push(init.last().push(c))
        } else {
            init.push(seq![c])
        }
    }
}

/// What `str::to_lowercase` makes of a text.
pub uninterp spec fn lower_of(s: Seq<char>) -> Seq<char>;

/// Relies on `char::is_whitespace`: true exactly for the `White_Space` characters.
#[verifier::external_body]
fn is_whitespace_char(c: char) -> (r: bool)
    ensures
        r == is_white_space(c),
{
    c.is_whitespace()
}

/// Relies on `str::trim`: the text with leading and trailing whitespace removed.
#[verifier::external_body]
pub(crate) fn trim_text<'a>(s: &'a str) -> (r: &'a str)
    ensures
        r@ == trimmed(s@),
{
    s.trim()
}

/// Relies on `str::to_lowercase`: the result depends on the characters alone.
#[verifier::external_body]
pub(crate) fn lowercase(s: &str) -> (r: String)
    ensures
        r@ == lower_of(s@),
{
    s.to_lowercase()
}

/// Relies on `str::contains` with a `&str` pattern: true exactly when `needle`
/// occurs in `hay`.
#[verifier::external_body]
fn text_contains(hay: &str, needle: &str) -> (r: bool)
    ensures
        r == is_infix(needle@, hay@),
{
    hay.contains(needle)
}

/// The views of a list of strings.
pub open spec fn views(v: Seq<String>) -> Seq<Seq<char>> {
    v.map_values(|t: String| t@)
}

/// Splits `s` into its whitespace-separated words, in order.
pub fn split_terms(s: &str) -> (r: Vec<String>)
    ensures
        views(r@) == words(s@),
{
    let n = s.unicode_len();
    let mut out: Vec<String> = Vec::new();
    let mut i: usize = 0;
    // Start of the word being read; `start == i` when there is none.
    let mut start: usize = 0;
    while i < n
        invariant
            n == s@.len(),
            start <= i <= n,
            forall|k: int| start <= k < i ==> !is_white_space(s@[k]),
            start > 0 ==> is_white_space(s@[start - 1]),
            start < i ==> words(s@.take(i as int)) == views(out@).push(s@.subrange(start as int, i as int)),
            start == i ==> words(s@.take(i as int)) == views(out@),
        decreases n - i,
    {
        let c = s.get_char(i);
        let ghost t = s@.take(i + 1);
        proof {
            assert(t.drop_last() =~= s@.take(i as int));
            assert(t.last() == c);
        }
        if is_whitespace_char(c) {
            if start < i {
                let w = String::from_str(s.substring_char(start, i));
                let ghost prev = out@;
                out.push(w);
                proof {
                    assert(views(out@) =~= views(prev).push(w@));
                }
            }
            start = i + 1;
        } else {
            proof {
                if start < i {
                    assert(t[t.len() - 2] == s@[i - 1]);
                    assert(s@.subrange(start as int, i + 1) =~= s@.subrange(start as int, i as int).push(c));
                    assert(views(out@).push(s@.subrange(start as int, i as int)).drop_last() =~= views(out@));
                } else {
                    if i > 0 {
                        assert(t[t.len() - 2] == s@[i - 1]);
                    }
                    assert(s@.subrange(i as int, i + 1) =~= seq![c]);
                }
            }
        }
        i += 1;
    }
    proof {
        assert(s@.take(n as int) =~= s@);
    }
    if start < n {
        let w = String::from_str(s.substring_char(start, n));
        let ghost prev = out@;
        out.push(w);
        proof {
            assert(views(out@) =~= views(prev).push(w@));
        }
    }
    out
}

/// Whether every one of `terms` occurs in `text`.
pub open spec fn has_all_terms(terms: Seq<Seq<char>>, text: Seq<char>) -> bool {
    forall|k: int| 0 <= k < terms.len() ==> is_infix(#[trigger] terms[k], text)
}

/// Tells whether every one of `terms` occurs in `text` as a substring; stops
/// at the first that does not.
pub fn contains_all_terms(text: &str, terms: &Vec<String>) -> (r: bool)
    ensures
        r == has_all_terms(views(terms@), text@),
{
    let mut k: usize = 0;
    while k < terms.len()
        invariant
            k <= terms@.len(),
            forall|m: int| 0 <= m < k ==> is_infix(#[trigger] views(terms@)[m], text@),
        decreases terms@.len() - k,
    {
        if !text_contains(text, terms[k].as_str()) {
            assert(!is_infix(views(terms@)[k as int], text@));
            return false;
        }
        k += 1;
    }
    true
}

} // verus!
