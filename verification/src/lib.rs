//! Generates human-readable random identifiers by joining randomly chosen
//! adjectives and a noun from curated word lists.

use vstd::prelude::*;

pub mod error;
pub mod text;
pub mod words;

pub use error::Error;
pub use words::WordSource;

use text::{
    count_char, count_occurrences, join_seqs, join_words, lemma_foreign_char_absent,
    lemma_multichar_separator_count, lemma_separator_count, lemma_split_join, split_non_empty,
    word_views,
};
use vstd::string::StrSliceExecFns;

verus! {

/// Options for generating names.
#[derive(Debug, Clone)]
pub struct NameOptions {
    /// Number of components, silently clamped to [2, 16] at generation. Default: 3.
    pub components: u8,
    /// Maximum length per element. None means no limit.
    pub max_element_length: Option<usize>,
    /// Separator between components. Default: "-".
    pub separator: String,
}

impl Default for NameOptions {
    /// Three components, no length limit, "-" as the separator.
    fn default() -> (r: Self)
        ensures
            r.components == 3,
            r.max_element_length is None,
            r.separator@ == "-"@,
    {
        NameOptions { components: 3, max_element_length: None, separator: "-".to_owned() }
    }
}

/// The component count actually used: `c` forced into the range [2, 16].
pub open spec fn clamp_components(c: u8) -> u8 {
    if c < 2 {
        2
    } else if c > 16 {
        16
    } else {
        c
    }
}

/// Whether a word respects the optional length limit.
pub open spec fn fits(w: Seq<char>, max_len: Option<usize>) -> bool {
    match max_len {
        Some(limit) => w.len() <= limit,
        None => true,
    }
}

/// The candidate pool: the words that respect the length limit, in order.
pub open spec fn pool_of(words: Seq<Seq<char>>, max_len: Option<usize>) -> Seq<Seq<char>> {
    words.filter(|w: Seq<char>| fits(w, max_len))
}

/// What a drawn sequence of name parts may look like: one word from the
/// adjective pool for each of the first `clamp_components(components) - 1`
/// slots and one word from the noun pool last, where a slot whose pool the
/// length limit emptied contributes nothing.
pub open spec fn valid_parts(
    adjectives: Seq<Seq<char>>,
    nouns: Seq<Seq<char>>,
    components: u8,
    max_len: Option<usize>,
    parts: Seq<Seq<char>>,
) -> bool {
    let adj_pool = pool_of(adjectives, max_len);
    let noun_pool = pool_of(nouns, max_len);
    let n_adj: int = if adj_pool.len() == 0 {
        0
    } else {
        clamp_components(components) - 1
    };
    &&& parts.len() == n_adj + (if noun_pool.len() == 0 {
        0int
    } else {
        1int
    })
    &&& forall|i: int| 0 <= i < n_adj ==> adj_pool.contains(#[trigger] parts[i])
    &&& noun_pool.len() > 0 ==> noun_pool.contains(parts[parts.len() - 1])
}

/// Relies on rand::Rng::random_range over rand::rng(): a uniformly random
/// index drawn from [0, n), each draw independent of every other.
#[verifier::external_body]
fn random_index(n: usize) -> (i: usize)
    requires
        n > 0,
    ensures
        i < n,
{
    rand::Rng::random_range(&mut rand::rng(), 0..n)
}

/// The words of `words` that respect the length limit, in order.
fn filtered_pool(words: &Vec<String>, max_len: &Option<usize>) -> (r: Vec<String>)
    ensures
        word_views(r@) == pool_of(word_views(words@), *max_len),
{
    let mut out: Vec<String> = Vec::new();
    let mut i: usize = 0;
    proof {
        reveal(Seq::filter);
        assert(word_views(words@).take(0) =~= Seq::<Seq<char>>::empty());
    }
    while i < words.len()
        invariant
            i <= words@.len(),
            word_views(out@) == pool_of(word_views(words@).take(i as int), *max_len),
        decreases words@.len() - i,
    {
        let keep = match max_len {
            Some(limit) => words[i].as_str().unicode_len() <= *limit,
            None => true,
        };
        proof {
            reveal(Seq::filter);
            let ws = word_views(words@);
            assert(ws.take(i as int + 1).drop_last() =~= ws.take(i as int));
            assert(ws.take(i as int + 1).last() == ws[i as int]);
            assert(ws[i as int] == words@[i as int]@);
        }
        if keep {
            let w = words[i].clone();
            proof {
                assert(word_views(out@.push(w)) =~= word_views(out@).push(words@[i as int]@));
            }
            out.push(w);
        }
        i += 1;
    }
    proof {
        assert(word_views(words@).take(words@.len() as int) =~= word_views(words@));
    }
    out
}

/// Generates a random name with custom options: the component count is clamped
/// to [2, 16]; each component is drawn independently and uniformly, with
/// replacement, from its length-filtered pool; the drawn words are joined with
/// the separator, the noun last.
pub fn generate_name_with_options(source: &WordSource, opts: &NameOptions) -> (name: String)
    ensures
        exists|parts: Seq<Seq<char>>|
            {
                &&& #[trigger] valid_parts(
                    source.adjectives_view(),
                    source.nouns_view(),
                    opts.components,
                    opts.max_element_length,
                    parts,
                )
                &&& name@ == join_seqs(parts, opts.separator@)
            },
{
    let adj_pool = filtered_pool(source.adjectives(), &opts.max_element_length);
    let noun_pool = filtered_pool(source.nouns(), &opts.max_element_length);
    let components: u8 = if opts.components < 2 {
        2
    } else if opts.components > 16 {
        16
    } else {
        opts.components
    };
    let n_adj: usize = (components - 1) as usize;
    let mut parts: Vec<String> = Vec::new();
    let mut k: usize = 0;
    while k < n_adj
        invariant
            k <= n_adj,
            word_views(adj_pool@) == pool_of(
                source.adjectives_view(),
                opts.max_element_length,
            ),
            parts@.len() == if adj_pool@.len() == 0 {
                0int
            } else {
                k as int
            },
            forall|i: int|
                0 <= i < parts@.len() ==> word_views(adj_pool@).contains(
                    #[trigger] word_views(parts@)[i],
                ),
        decreases n_adj - k,
    {
        if adj_pool.len() > 0 {
            let idx = random_index(adj_pool.len());
            let w = adj_pool[idx].clone();
            proof {
                assert(word_views(parts@.push(w)) =~= word_views(parts@).push(
                    adj_pool@[idx as int]@,
                ));
                assert(word_views(adj_pool@)[idx as int] == adj_pool@[idx as int]@);
            }
            parts.push(w);
        }
        k += 1;
    }
    if noun_pool.len() > 0 {
        let idx = random_index(noun_pool.len());
        let w = noun_pool[idx].clone();
        proof {
            assert(word_views(parts@.push(w)) =~= word_views(parts@).push(
                noun_pool@[idx as int]@,
            ));
            assert(word_views(noun_pool@)[idx as int] == noun_pool@[idx as int]@);
        }
        parts.push(w);
    }
    let name = join_words(&parts, opts.separator.as_str());
    proof {
        assert(components == clamp_components(opts.components));
        assert(valid_parts(
            source.adjectives_view(),
            source.nouns_view(),
            opts.components,
            opts.max_element_length,
            word_views(parts@),
        ));
    }
    name
}

/// Generates a random name with the default options: two adjectives and a
/// noun, separated by dashes.
pub fn generate_name(source: &WordSource) -> (name: String)
    ensures
        exists|parts: Seq<Seq<char>>|
            {
                &&& #[trigger] valid_parts(
                    source.adjectives_view(),
                    source.nouns_view(),
                    3,
                    None,
                    parts,
                )
                &&& name@ == join_seqs(parts, "-"@)
            },
{
    let opts = NameOptions::default();
    generate_name_with_options(source, &opts)
}

/// The version identifier of this library.
pub fn version() -> (v: String)
    ensures
        v@ == "0.1.0"@,
{
    "0.1.0".to_owned()
}

/// Without a length limit the candidate pool is the whole word list.
pub proof fn lemma_pool_unlimited(words: Seq<Seq<char>>)
    ensures
        pool_of(words, None) == words,
    decreases words.len(),
{
    reveal(Seq::filter);
    if words.len() > 0 {
        lemma_pool_unlimited(words.drop_last());
        assert(words.drop_last().push(words.last()) =~= words);
    }
}

/// Every word of a candidate pool stands in the list it was filtered from.
pub proof fn lemma_pool_subset(words: Seq<Seq<char>>, max_len: Option<usize>)
    ensures
        forall|i: int|
            0 <= i < pool_of(words, max_len).len() ==> words.contains(
                #[trigger] pool_of(words, max_len)[i],
            ),
    decreases words.len(),
{
    reveal(Seq::filter);
    if words.len() > 0 {
        lemma_pool_subset(words.drop_last(), max_len);
        let sub = pool_of(words.drop_last(), max_len);
        let pool = pool_of(words, max_len);
        assert forall|i: int| 0 <= i < pool.len() implies words.contains(#[trigger] pool[i]) by {
            if i < sub.len() && pool[i] == sub[i] {
                let j = choose|j: int|
                    0 <= j < words.drop_last().len() && words.drop_last()[j] == sub[i];
                assert(words[j] == pool[i]);
            } else {
                assert(pool[i] == words.last());
                assert(words[words.len() - 1] == pool[i]);
            }
        }
    }
}

/// Law: a component count below the valid range behaves exactly as its lower
/// bound, and one above it exactly as its upper bound.
pub proof fn lemma_components_clamped(
    adjectives: Seq<Seq<char>>,
    nouns: Seq<Seq<char>>,
    components: u8,
    max_len: Option<usize>,
    parts: Seq<Seq<char>>,
)
    ensures
        components < 2 ==> valid_parts(adjectives, nouns, components, max_len, parts)
            == valid_parts(adjectives, nouns, 2, max_len, parts),
        components > 16 ==> valid_parts(adjectives, nouns, components, max_len, parts)
            == valid_parts(adjectives, nouns, 16, max_len, parts),
        2 <= components <= 16 ==> clamp_components(components) == components,
{
}

/// Each word of a valid draw stands in the word list its slot was drawn from,
/// and so holds whatever is known of every word of that list.
proof fn lemma_parts_from_lists(
    adjectives: Seq<Seq<char>>,
    nouns: Seq<Seq<char>>,
    components: u8,
    max_len: Option<usize>,
    parts: Seq<Seq<char>>,
)
    requires
        valid_parts(adjectives, nouns, components, max_len, parts),
    ensures
        forall|i: int|
            0 <= i < parts.len() ==> adjectives.contains(#[trigger] parts[i]) || nouns.contains(
                parts[i],
            ),
{
    let adj_pool = pool_of(adjectives, max_len);
    let noun_pool = pool_of(nouns, max_len);
    lemma_pool_subset(adjectives, max_len);
    lemma_pool_subset(nouns, max_len);
    assert forall|i: int|
        0 <= i < parts.len() implies adjectives.contains(#[trigger] parts[i]) || nouns.contains(
        parts[i],
    ) by {
        let n_adj: int = if adj_pool.len() == 0 {
            0
        } else {
            clamp_components(components) - 1
        };
        if i < n_adj {
            assert(adj_pool.contains(parts[i]));
            let j = choose|j: int| 0 <= j < adj_pool.len() && adj_pool[j] == parts[i];
            assert(adjectives.contains(adj_pool[j]));
        } else {
            assert(noun_pool.contains(parts[i]));
            let j = choose|j: int| 0 <= j < noun_pool.len() && noun_pool[j] == parts[i];
            assert(nouns.contains(noun_pool[j]));
        }
    }
}

/// Law: where both candidate pools are non-empty and the single-character
/// separator occurs in no word of either list, a generated name contains the
/// separator exactly one time fewer than the clamped component count.
pub proof fn lemma_generated_separator_count(
    adjectives: Seq<Seq<char>>,
    nouns: Seq<Seq<char>>,
    components: u8,
    max_len: Option<usize>,
    parts: Seq<Seq<char>>,
    c: char,
)
    requires
        valid_parts(adjectives, nouns, components, max_len, parts),
        pool_of(adjectives, max_len).len() > 0,
        pool_of(nouns, max_len).len() > 0,
        forall|i: int| 0 <= i < adjectives.len() ==> !(#[trigger] adjectives[i]).contains(c),
        forall|i: int| 0 <= i < nouns.len() ==> !(#[trigger] nouns[i]).contains(c),
    ensures
        count_char(join_seqs(parts, seq![c]), c) == clamp_components(components) - 1,
{
    lemma_parts_from_lists(adjectives, nouns, components, max_len, parts);
    assert forall|i: int| 0 <= i < parts.len() implies !(#[trigger] parts[i]).contains(c) by {
        if adjectives.contains(parts[i]) {
            let j = choose|j: int| 0 <= j < adjectives.len() && adjectives[j] == parts[i];
            assert(!adjectives[j].contains(c));
        } else {
            let j = choose|j: int| 0 <= j < nouns.len() && nouns[j] == parts[i];
            assert(!nouns[j].contains(c));
        }
    }
    lemma_separator_count(parts, c);
}

/// Law: where both candidate pools are non-empty and the separator is a
/// non-empty string none of whose characters occurs in any word of either
/// list, a generated name contains the separator exactly one time fewer than
/// the clamped component count, and contains no occurrence of a character `c`
/// that is foreign to both lists and to the separator.
pub proof fn lemma_generated_custom_separator(
    adjectives: Seq<Seq<char>>,
    nouns: Seq<Seq<char>>,
    components: u8,
    max_len: Option<usize>,
    parts: Seq<Seq<char>>,
    sep: Seq<char>,
    c: char,
)
    requires
        valid_parts(adjectives, nouns, components, max_len, parts),
        pool_of(adjectives, max_len).len() > 0,
        pool_of(nouns, max_len).len() > 0,
        sep.len() > 0,
        forall|i: int| 0 <= i < adjectives.len() ==> !(#[trigger] adjectives[i]).contains(sep[0]),
        forall|i: int| 0 <= i < nouns.len() ==> !(#[trigger] nouns[i]).contains(sep[0]),
        forall|i: int| 0 <= i < adjectives.len() ==> !(#[trigger] adjectives[i]).contains(c),
        forall|i: int| 0 <= i < nouns.len() ==> !(#[trigger] nouns[i]).contains(c),
        !sep.contains(c),
    ensures
        count_occurrences(join_seqs(parts, sep), sep) == clamp_components(components) - 1,
        count_char(join_seqs(parts, sep), c) == 0,
{
    lemma_parts_from_lists(adjectives, nouns, components, max_len, parts);
    assert forall|i: int|
        0 <= i < parts.len() implies !(#[trigger] parts[i]).contains(sep[0]) && !parts[i].contains(
        c,
    ) by {
        if adjectives.contains(parts[i]) {
            let j = choose|j: int| 0 <= j < adjectives.len() && adjectives[j] == parts[i];
            assert(!adjectives[j].contains(sep[0]) && !adjectives[j].contains(c));
        } else {
            let j = choose|j: int| 0 <= j < nouns.len() && nouns[j] == parts[i];
            assert(!nouns[j].contains(sep[0]) && !nouns[j].contains(c));
        }
    }
    lemma_multichar_separator_count(parts, sep);
    lemma_foreign_char_absent(parts, sep, c);
}

/// Law: where both candidate pools are non-empty, every word of both lists is
/// non-empty, and the single-character separator occurs in no word of either
/// list, splitting a generated name on the separator yields exactly the clamped
/// component count of tokens; each token but the last is a word of the
/// adjective list and the last is a word of the noun list.
pub proof fn lemma_generated_tokens(
    adjectives: Seq<Seq<char>>,
    nouns: Seq<Seq<char>>,
    components: u8,
    max_len: Option<usize>,
    parts: Seq<Seq<char>>,
    c: char,
)
    requires
        valid_parts(adjectives, nouns, components, max_len, parts),
        pool_of(adjectives, max_len).len() > 0,
        pool_of(nouns, max_len).len() > 0,
        forall|i: int| 0 <= i < adjectives.len() ==> !(#[trigger] adjectives[i]).contains(c),
        forall|i: int| 0 <= i < nouns.len() ==> !(#[trigger] nouns[i]).contains(c),
        forall|i: int| 0 <= i < adjectives.len() ==> (#[trigger] adjectives[i]).len() > 0,
        forall|i: int| 0 <= i < nouns.len() ==> (#[trigger] nouns[i]).len() > 0,
    ensures
        split_non_empty(join_seqs(parts, seq![c]), c) == parts,
        parts.len() == clamp_components(components),
        forall|i: int| 0 <= i < parts.len() - 1 ==> adjectives.contains(#[trigger] parts[i]),
        nouns.contains(parts[parts.len() - 1]),
{
    lemma_parts_from_lists(adjectives, nouns, components, max_len, parts);
    lemma_pool_subset(adjectives, max_len);
    lemma_pool_subset(nouns, max_len);
    assert forall|i: int|
        0 <= i < parts.len() implies !(#[trigger] parts[i]).contains(c) && parts[i].len() > 0 by {
        if adjectives.contains(parts[i]) {
            let j = choose|j: int| 0 <= j < adjectives.len() && adjectives[j] == parts[i];
            assert(!adjectives[j].contains(c) && adjectives[j].len() > 0);
        } else {
            let j = choose|j: int| 0 <= j < nouns.len() && nouns[j] == parts[i];
            assert(!nouns[j].contains(c) && nouns[j].len() > 0);
        }
    }
    lemma_split_join(parts, c);
    let adj_pool = pool_of(adjectives, max_len);
    let noun_pool = pool_of(nouns, max_len);
    assert forall|i: int| 0 <= i < parts.len() - 1 implies adjectives.contains(
        #[trigger] parts[i],
    ) by {
        assert(adj_pool.contains(parts[i]));
        let j = choose|j: int| 0 <= j < adj_pool.len() && adj_pool[j] == parts[i];
        assert(adjectives.contains(adj_pool[j]));
    }
    assert(noun_pool.contains(parts[parts.len() - 1]));
    let j = choose|j: int| 0 <= j < noun_pool.len() && noun_pool[j] == parts[parts.len() - 1];
    assert(nouns.contains(noun_pool[j]));
}

/// Law: with a maximum element length, every word a valid draw contains fits
/// within it.
pub proof fn lemma_max_element_length(
    adjectives: Seq<Seq<char>>,
    nouns: Seq<Seq<char>>,
    components: u8,
    limit: usize,
    parts: Seq<Seq<char>>,
)
    requires
        valid_parts(adjectives, nouns, components, Some(limit), parts),
    ensures
        forall|i: int| 0 <= i < parts.len() ==> (#[trigger] parts[i]).len() <= limit,
{
    let adj_pool = pool_of(adjectives, Some(limit));
    let noun_pool = pool_of(nouns, Some(limit));
    let pred = |w: Seq<char>| fits(w, Some(limit));
    assert forall|i: int| 0 <= i < parts.len() implies (#[trigger] parts[i]).len() <= limit by {
        let n_adj: int = if adj_pool.len() == 0 {
            0
        } else {
            clamp_components(components) - 1
        };
        if i < n_adj {
            assert(adj_pool.contains(parts[i]));
            let j = choose|j: int| 0 <= j < adj_pool.len() && adj_pool[j] == parts[i];
            adjectives.lemma_filter_pred(pred, j);
        } else {
            assert(noun_pool.contains(parts[i]));
            let j = choose|j: int| 0 <= j < noun_pool.len() && noun_pool[j] == parts[i];
            nouns.lemma_filter_pred(pred, j);
        }
    }
}

} // verus!
