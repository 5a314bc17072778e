//! The word source: the two word collections that name generation draws from,
//! materialized from compressed newline-delimited payloads.

use vstd::prelude::*;
use crate::error::Error;
use crate::text::{split_non_empty, split_words, word_views, lemma_split_pieces_non_empty};

verus! {

/// What flate2's gzip decoding yields on a byte stream: the decoded text where
/// the stream is a well-formed gzip stream of UTF-8 text, `None` where it is not.
pub uninterp spec fn gunzip_of(data: Seq<u8>) -> Option<Seq<char>>;

/// Relies on flate2::read::GzDecoder together with std::io::Read::read_to_string:
/// inflates a gzip stream into UTF-8 text, failing on malformed input. The
/// result is a function of the bytes alone.
#[verifier::external_body]
fn gunzip_text(data: &[u8]) -> (r: Option<String>)
    ensures
        match r {
            Some(text) => gunzip_of(data@) == Some(text@),
            None => gunzip_of(data@) is None,
        },
{
    let mut decoder = flate2::read::GzDecoder::new(data);
    let mut text = String::new();
    match std::io::Read::read_to_string(&mut decoder, &mut text) {
        Ok(_) => Some(text),
        Err(_) => None,
    }
}

/// The two word collections that generation draws from: an ordered list of
/// adjectives and an ordered list of nouns, immutable once built.
pub struct WordSource {
    adjectives: Vec<String>,
    nouns: Vec<String>,
}

impl WordSource {
    /// The views of the adjective words.
    pub closed spec fn adjectives_view(&self) -> Seq<Seq<char>> {
        word_views(self.adjectives@)
    }

    /// The views of the noun words.
    pub closed spec fn nouns_view(&self) -> Seq<Seq<char>> {
        word_views(self.nouns@)
    }

    /// Every word of both collections is non-empty.
    pub open spec fn wf(&self) -> bool {
        &&& forall|i: int|
            0 <= i < self.adjectives_view().len() ==> (#[trigger] self.adjectives_view()[i]).len()
                > 0
        &&& forall|i: int|
            0 <= i < self.nouns_view().len() ==> (#[trigger] self.nouns_view()[i]).len() > 0
    }

    /// Builds a word source from two ready-made word lists of non-empty words.
    pub fn new(adjectives: Vec<String>, nouns: Vec<String>) -> (r: WordSource)
        requires
            forall|i: int| 0 <= i < adjectives@.len() ==> (#[trigger] adjectives@[i])@.len() > 0,
            forall|i: int| 0 <= i < nouns@.len() ==> (#[trigger] nouns@[i])@.len() > 0,
        ensures
            r.adjectives_view() == word_views(adjectives@),
            r.nouns_view() == word_views(nouns@),
            r.wf(),
    {
        let r = WordSource { adjectives, nouns };
        proof {
            assert forall|i: int| 0 <= i < r.adjectives_view().len() implies (
            #[trigger] r.adjectives_view()[i]).len() > 0 by {
                assert(r.adjectives_view()[i] == r.adjectives@[i]@);
            }
            assert forall|i: int| 0 <= i < r.nouns_view().len() implies (
            #[trigger] r.nouns_view()[i]).len() > 0 by {
                assert(r.nouns_view()[i] == r.nouns@[i]@);
            }
        }
        r
    }

    /// Builds a word source from newline-delimited text, one word per line,
    /// dropping empty lines.
    pub fn from_text(adjective_text: &str, noun_text: &str) -> (r: WordSource)
        ensures
            r.adjectives_view() == split_non_empty(adjective_text@, '\n'),
            r.nouns_view() == split_non_empty(noun_text@, '\n'),
            r.wf(),
    {
        let adjectives = split_words(adjective_text, '\n');
        let nouns = split_words(noun_text, '\n');
        proof {
            lemma_split_pieces_non_empty(adjective_text@, '\n', Seq::empty());
            lemma_split_pieces_non_empty(noun_text@, '\n', Seq::empty());
        }
        WordSource { adjectives, nouns }
    }

    /// Builds a word source by inflating two gzip payloads of newline-delimited
    /// text, one word per line. Fails where a payload is not a well-formed gzip
    /// stream of UTF-8 text: a corrupt embedded payload is a packaging defect,
    /// and no degraded word list is substituted for it.
    pub fn from_compressed(adjectives_gz: &[u8], nouns_gz: &[u8]) -> (r: Result<WordSource, Error>)
        ensures
            r is Ok <==> (gunzip_of(adjectives_gz@) is Some && gunzip_of(nouns_gz@) is Some),
            r matches Ok(src) ==> {
                &&& src.adjectives_view() == split_non_empty(gunzip_of(adjectives_gz@)->0, '\n')
                &&& src.nouns_view() == split_non_empty(gunzip_of(nouns_gz@)->0, '\n')
                &&& src.wf()
            },
            r matches Err(e) ==> e matches Error::InvalidInput(_),
    {
        let adjective_text = match gunzip_text(adjectives_gz) {
            Some(text) => text,
            None => {
                return Err(Error::InvalidInput("adjective payload is not gzip text".to_owned()));
            },
        };
        let noun_text = match gunzip_text(nouns_gz) {
            Some(text) => text,
            None => {
                return Err(Error::InvalidInput("noun payload is not gzip text".to_owned()));
            },
        };
        Ok(Self::from_text(adjective_text.as_str(), noun_text.as_str()))
    }

    /// Read-only access to the adjective list.
    pub fn adjectives(&self) -> (r: &Vec<String>)
        ensures
            word_views(r@) == self.adjectives_view(),
    {
        &self.adjectives
    }

    /// Read-only access to the noun list.
    pub fn nouns(&self) -> (r: &Vec<String>)
        ensures
            word_views(r@) == self.nouns_view(),
    {
        &self.nouns
    }
}

} // verus!
