//! The textual model of a generated name: joining words with a separator,
//! splitting delimited text into words, and counting separator occurrences.

use vstd::prelude::*;
use vstd::string::StrSliceExecFns;
use vstd::string::StringExecFns;

verus! {

/// The views of a sequence of words.
pub open spec fn word_views(ws: Seq<String>) -> Seq<Seq<char>> {
    ws.map_values(|w: String| w@)
}

/// The words joined in order, with `sep` between consecutive words.
pub open spec fn join_seqs(parts: Seq<Seq<char>>, sep: Seq<char>) -> Seq<char>
    decreases parts.len(),
{
    if parts.len() == 0 {
        Seq::empty()
    } else if parts.len() == 1 {
        parts[0]
    } else {
        parts[0] + sep + join_seqs(parts.drop_first(), sep)
    }
}

/// Appending one more word extends the joined text by the separator and that word.
proof fn lemma_join_push(parts: Seq<Seq<char>>, sep: Seq<char>, p: Seq<char>)
    ensures
        parts.len() == 0 ==> join_seqs(parts.push(p), sep) == p,
        parts.len() > 0 ==> join_seqs(parts.push(p), sep) == join_seqs(parts, sep) + sep + p,
    decreases parts.len(),
{
    if parts.len() == 0 {
        assert(parts.push(p)[0] == p);
    } else {
        lemma_join_push(parts.drop_first(), sep, p);
        assert(parts.push(p).drop_first() =~= parts.drop_first().push(p));
        assert(parts.push(p)[0] == parts[0]);
        if parts.len() == 1 {
            assert(join_seqs(parts.push(p), sep) == parts[0] + sep + p);
        } else {
            assert(parts[0] + sep + (join_seqs(parts.drop_first(), sep) + sep + p) =~= (parts[0]
                + sep + join_seqs(parts.drop_first(), sep)) + sep + p);
        }
    }
}

/// Joins the words with `sep`, in order.
pub fn join_words(parts: &Vec<String>, sep: &str) -> (r: String)
    ensures
        r@ == join_seqs(word_views(parts@), sep@),
{
    let mut out = String::new();
    let mut i: usize = 0;
    while i < parts.len()
        invariant
            i <= parts@.len(),
            out@ == join_seqs(word_views(parts@).take(i as int), sep@),
        decreases parts@.len() - i,
    {
        proof {
            let ws = word_views(parts@);
            lemma_join_push(ws.take(i as int), sep@, parts@[i as int]@);
            assert(ws.take(i as int).push(ws[i as int]) =~= ws.take(i as int + 1));
        }
        if i > 0 {
            out.append(sep);
        }
        out.append(parts[i].as_str());
        i += 1;
    }
    proof {
        assert(word_views(parts@).take(parts@.len() as int) =~= word_views(parts@));
    }
    out
}

/// The number of occurrences of `c` in `s`.
pub open spec fn count_char(s: Seq<char>, c: char) -> nat
    decreases s.len(),
{
    if s.len() == 0 {
        0
    } else {
        (if s[0] == c {
            1nat
        } else {
            0nat
        }) + count_char(s.drop_first(), c)
    }
}

proof fn lemma_count_char_add(a: Seq<char>, b: Seq<char>, c: char)
    ensures
        count_char(a + b, c) == count_char(a, c) + count_char(b, c),
    decreases a.len(),
{
    if a.len() == 0 {
        assert(a + b =~= b);
    } else {
        lemma_count_char_add(a.drop_first(), b, c);
        assert((a + b).drop_first() =~= a.drop_first() + b);
        assert((a + b)[0] == a[0]);
    }
}

proof fn lemma_count_char_absent(s: Seq<char>, c: char)
    requires
        !s.contains(c),
    ensures
        count_char(s, c) == 0,
    decreases s.len(),
{
    if s.len() > 0 {
        assert forall|i: int| 0 <= i < s.drop_first().len() implies s.drop_first()[i] != c by {
            assert(s.drop_first()[i] == s[i + 1]);
        }
        lemma_count_char_absent(s.drop_first(), c);
    }
}

/// Law: a name joined with a single-character separator that occurs in no word
/// contains the separator exactly one time fewer than it has words.
pub proof fn lemma_separator_count(parts: Seq<Seq<char>>, c: char)
    requires
        parts.len() > 0,
        forall|i: int| 0 <= i < parts.len() ==> !(#[trigger] parts[i]).contains(c),
    ensures
        count_char(join_seqs(parts, seq![c]), c) == parts.len() - 1,
    decreases parts.len(),
{
    if parts.len() == 1 {
        lemma_count_char_absent(parts[0], c);
    } else {
        assert forall|i: int| 0 <= i < parts.drop_first().len() implies !(
        #[trigger] parts.drop_first()[i]).contains(c) by {
            assert(parts.drop_first()[i] == parts[i + 1]);
        }
        lemma_separator_count(parts.drop_first(), c);
        lemma_count_char_add(parts[0] + seq![c], join_seqs(parts.drop_first(), seq![c]), c);
        lemma_count_char_add(parts[0], seq![c], c);
        lemma_count_char_absent(parts[0], c);
        assert(count_char(seq![c], c) == 1) by {
            assert(seq![c].len() == 1);
            assert(seq![c][0] == c);
            assert(seq![c].drop_first() =~= Seq::<char>::empty());
            assert(count_char(Seq::<char>::empty(), c) == 0);
        }
    }
}

/// Law: a character that occurs in no word and not in the separator does not
/// occur in the joined name at all.
pub proof fn lemma_foreign_char_absent(parts: Seq<Seq<char>>, sep: Seq<char>, c: char)
    requires
        forall|i: int| 0 <= i < parts.len() ==> !(#[trigger] parts[i]).contains(c),
        !sep.contains(c),
    ensures
        count_char(join_seqs(parts, sep), c) == 0,
    decreases parts.len(),
{
    if parts.len() == 0 {
    } else if parts.len() == 1 {
        lemma_count_char_absent(parts[0], c);
    } else {
        assert forall|i: int| 0 <= i < parts.drop_first().len() implies !(
        #[trigger] parts.drop_first()[i]).contains(c) by {
            assert(parts.drop_first()[i] == parts[i + 1]);
        }
        lemma_foreign_char_absent(parts.drop_first(), sep, c);
        lemma_count_char_add(parts[0] + sep, join_seqs(parts.drop_first(), sep), c);
        lemma_count_char_add(parts[0], sep, c);
        lemma_count_char_absent(parts[0], c);
        lemma_count_char_absent(sep, c);
    }
}

/// The number of non-overlapping occurrences of `pat` in `s`, counted left to
/// right, leftmost first.
pub open spec fn count_occurrences(s: Seq<char>, pat: Seq<char>) -> nat
    decreases s.len(),
    when pat.len() > 0
{
    if s.len() < pat.len() {
        0
    } else if s.subrange(0, pat.len() as int) == pat {
        1 + count_occurrences(s.skip(pat.len() as int), pat)
    } else {
        count_occurrences(s.drop_first(), pat)
    }
}

/// No occurrence of `pat` begins inside a stretch free of its first character.
proof fn lemma_count_occurrences_skip_word(w: Seq<char>, rest: Seq<char>, pat: Seq<char>)
    requires
        pat.len() > 0,
        !w.contains(pat[0]),
    ensures
        count_occurrences(w + rest, pat) == count_occurrences(rest, pat),
    decreases w.len(),
{
    if w.len() == 0 {
        assert(w + rest =~= rest);
    } else {
        let s = w + rest;
        assert(s[0] == w[0]);
        assert(w.contains(w[0]));
        if s.len() < pat.len() {
            assert(rest.len() < pat.len());
            assert(count_occurrences(rest, pat) == 0);
        } else {
            assert(s.subrange(0, pat.len() as int)[0] == s[0]);
            assert(s.subrange(0, pat.len() as int) != pat);
            assert(s.drop_first() =~= w.drop_first() + rest);
            assert forall|i: int| 0 <= i < w.drop_first().len() implies w.drop_first()[i]
                != pat[0] by {
                assert(w.drop_first()[i] == w[i + 1]);
            }
            lemma_count_occurrences_skip_word(w.drop_first(), rest, pat);
        }
    }
}

/// An occurrence of `pat` at the front is counted once and the scan resumes after it.
proof fn lemma_count_occurrences_at_sep(rest: Seq<char>, pat: Seq<char>)
    requires
        pat.len() > 0,
    ensures
        count_occurrences(pat + rest, pat) == 1 + count_occurrences(rest, pat),
{
    let s = pat + rest;
    assert(s.subrange(0, pat.len() as int) =~= pat);
    assert(s.skip(pat.len() as int) =~= rest);
}

/// Law: a name joined with a non-empty separator none of whose characters
/// occurs in any word contains the separator exactly one time fewer than it
/// has words.
pub proof fn lemma_multichar_separator_count(parts: Seq<Seq<char>>, sep: Seq<char>)
    requires
        sep.len() > 0,
        parts.len() > 0,
        forall|i: int| 0 <= i < parts.len() ==> !(#[trigger] parts[i]).contains(sep[0]),
    ensures
        count_occurrences(join_seqs(parts, sep), sep) == parts.len() - 1,
    decreases parts.len(),
{
    if parts.len() == 1 {
        assert(parts[0] + Seq::<char>::empty() =~= parts[0]);
        lemma_count_occurrences_skip_word(parts[0], Seq::empty(), sep);
        assert(count_occurrences(Seq::<char>::empty(), sep) == 0);
    } else {
        let rest_join = join_seqs(parts.drop_first(), sep);
        assert(join_seqs(parts, sep) == (parts[0] + sep) + rest_join);
        assert((parts[0] + sep) + rest_join =~= parts[0] + (sep + rest_join));
        lemma_count_occurrences_skip_word(parts[0], sep + rest_join, sep);
        lemma_count_occurrences_at_sep(rest_join, sep);
        assert forall|i: int| 0 <= i < parts.drop_first().len() implies !(
        #[trigger] parts.drop_first()[i]).contains(sep[0]) by {
            assert(parts.drop_first()[i] == parts[i + 1]);
        }
        lemma_multichar_separator_count(parts.drop_first(), sep);
    }
}

/// The non-empty pieces of `s` delimited by `c`, scanned left to right, with
/// `cur` the piece read so far.
pub open spec fn split_acc(s: Seq<char>, c: char, cur: Seq<char>) -> Seq<Seq<char>>
    decreases s.len(),
{
    if s.len() == 0 {
        if cur.len() == 0 {
            Seq::empty()
        } else {
            seq![cur]
        }
    } else if s[0] == c {
        if cur.len() == 0 {
            split_acc(s.drop_first(), c, Seq::empty())
        } else {
            seq![cur] + split_acc(s.drop_first(), c, Seq::empty())
        }
    } else {
        split_acc(s.drop_first(), c, cur.push(s[0]))
    }
}

/// The non-empty pieces of `s` delimited by `c`.
pub open spec fn split_non_empty(s: Seq<char>, c: char) -> Seq<Seq<char>> {
    split_acc(s, c, Seq::empty())
}

/// Every piece the split yields is non-empty.
pub(crate) proof fn lemma_split_pieces_non_empty(s: Seq<char>, c: char, cur: Seq<char>)
    ensures
        forall|i: int|
            0 <= i < split_acc(s, c, cur).len() ==> (#[trigger] split_acc(s, c, cur)[i]).len() > 0,
    decreases s.len(),
{
    if s.len() == 0 {
        if cur.len() > 0 {
            assert(split_acc(s, c, cur) == seq![cur]);
            assert(split_acc(s, c, cur)[0] == cur);
        }
    } else if s[0] == c {
        lemma_split_pieces_non_empty(s.drop_first(), c, Seq::empty());
        if cur.len() > 0 {
            let r = seq![cur] + split_acc(s.drop_first(), c, Seq::<char>::empty());
            assert(split_acc(s, c, cur) == r);
            assert forall|i: int| 0 <= i < split_acc(s, c, cur).len() implies (
            #[trigger] split_acc(s, c, cur)[i]).len() > 0 by {
                if i == 0 {
                    assert(split_acc(s, c, cur)[0] == cur);
                } else {
                    assert(split_acc(s, c, cur)[i] == split_acc(
                        s.drop_first(),
                        c,
                        Seq::<char>::empty(),
                    )[i - 1]);
                }
            }
        } else {
            assert forall|i: int| 0 <= i < split_acc(s, c, cur).len() implies (
            #[trigger] split_acc(s, c, cur)[i]).len() > 0 by {
                assert(split_acc(s, c, cur)[i] == split_acc(
                    s.drop_first(),
                    c,
                    Seq::<char>::empty(),
                )[i]);
            }
        }
    } else {
        lemma_split_pieces_non_empty(s.drop_first(), c, cur.push(s[0]));
        assert forall|i: int| 0 <= i < split_acc(s, c, cur).len() implies (
        #[trigger] split_acc(s, c, cur)[i]).len() > 0 by {
            assert(split_acc(s, c, cur)[i] == split_acc(s.drop_first(), c, cur.push(s[0]))[i]);
        }
    }
}

/// Splits `text` at each occurrence of `c`, dropping empty pieces.
pub fn split_words(text: &str, c: char) -> (r: Vec<String>)
    ensures
        word_views(r@) == split_non_empty(text@, c),
{
    let n = text.unicode_len();
    let mut out: Vec<String> = Vec::new();
    let mut start: usize = 0;
    let mut i: usize = 0;
    proof {
        assert(text@.skip(0) =~= text@);
        assert(text@.subrange(0, 0) =~= Seq::<char>::empty());
        assert(word_views(out@) =~= Seq::<Seq<char>>::empty());
        assert(Seq::<Seq<char>>::empty() + split_acc(text@, c, Seq::<char>::empty())
            =~= split_acc(text@, c, Seq::<char>::empty()));
    }
    while i < n
        invariant
            start <= i <= n,
            n == text@.len(),
            split_non_empty(text@, c) == word_views(out@) + split_acc(
                text@.skip(i as int),
                c,
                text@.subrange(start as int, i as int),
            ),
        decreases n - i,
    {
        let ghost s = text@;
        let ghost rest = s.skip(i as int);
        let ghost cur = s.subrange(start as int, i as int);
        proof {
            assert(rest[0] == s[i as int]);
            assert(rest.drop_first() =~= s.skip(i as int + 1));
        }
        let ch = text.get_char(i);
        if ch == c {
            if start < i {
                let w = text.substring_char(start, i).to_owned();
                proof {
                    assert(word_views(out@.push(w)) =~= word_views(out@).push(cur));
                    assert(word_views(out@).push(cur) =~= word_views(out@) + seq![cur]);
                    assert((word_views(out@) + seq![cur]) + split_acc(
                        s.skip(i as int + 1),
                        c,
                        Seq::empty(),
                    ) =~= word_views(out@) + (seq![cur] + split_acc(
                        s.skip(i as int + 1),
                        c,
                        Seq::empty(),
                    )));
                }
                out.push(w);
            }
            start = i + 1;
            proof {
                assert(s.subrange(start as int, start as int) =~= Seq::<char>::empty());
            }
        } else {
            proof {
                assert(cur.push(s[i as int]) =~= s.subrange(start as int, i as int + 1));
            }
        }
        i += 1;
    }
    proof {
        assert(text@.skip(n as int) =~= Seq::<char>::empty());
    }
    if start < n {
        let ghost cur = text@.subrange(start as int, n as int);
        let w = text.substring_char(start, n).to_owned();
        proof {
            assert(word_views(out@.push(w)) =~= word_views(out@) + seq![cur]);
        }
        out.push(w);
    } else {
        proof {
            assert(word_views(out@) + Seq::<Seq<char>>::empty() =~= word_views(out@));
        }
    }
    out
}

/// Absorbing a delimiter-free word moves it whole into the accumulator.
proof fn lemma_split_acc_absorb(w: Seq<char>, rest: Seq<char>, c: char, cur: Seq<char>)
    requires
        !w.contains(c),
    ensures
        split_acc(w + rest, c, cur) == split_acc(rest, c, cur + w),
    decreases w.len(),
{
    if w.len() == 0 {
        assert(w + rest =~= rest);
        assert(cur + w =~= cur);
    } else {
        assert(w.contains(w[0]));
        assert((w + rest)[0] == w[0]);
        assert((w + rest).drop_first() =~= w.drop_first() + rest);
        assert forall|i: int| 0 <= i < w.drop_first().len() implies w.drop_first()[i] != c by {
            assert(w.drop_first()[i] == w[i + 1]);
        }
        lemma_split_acc_absorb(w.drop_first(), rest, c, cur.push(w[0]));
        assert(cur.push(w[0]) + w.drop_first() =~= cur + w);
    }
}

/// Law: splitting a joined name on a single-character separator that occurs in
/// no word recovers exactly the words that were joined.
pub proof fn lemma_split_join(parts: Seq<Seq<char>>, c: char)
    requires
        forall|i: int| 0 <= i < parts.len() ==> !(#[trigger] parts[i]).contains(c),
        forall|i: int| 0 <= i < parts.len() ==> (#[trigger] parts[i]).len() > 0,
    ensures
        split_non_empty(join_seqs(parts, seq![c]), c) == parts,
    decreases parts.len(),
{
    if parts.len() == 0 {
        assert(split_acc(Seq::<char>::empty(), c, Seq::<char>::empty())
            =~= Seq::<Seq<char>>::empty());
        assert(parts =~= Seq::<Seq<char>>::empty());
    } else if parts.len() == 1 {
        lemma_split_acc_absorb(parts[0], Seq::empty(), c, Seq::empty());
        assert(parts[0] + Seq::<char>::empty() =~= parts[0]);
        assert(Seq::<char>::empty() + parts[0] =~= parts[0]);
        assert(split_non_empty(join_seqs(parts, seq![c]), c) == split_acc(
            Seq::<char>::empty(),
            c,
            parts[0],
        ));
        assert(seq![parts[0]] =~= parts);
    } else {
        let rest_join = join_seqs(parts.drop_first(), seq![c]);
        assert(join_seqs(parts, seq![c]) == (parts[0] + seq![c]) + rest_join);
        assert((parts[0] + seq![c]) + rest_join =~= parts[0] + (seq![c] + rest_join));
        lemma_split_acc_absorb(parts[0], seq![c] + rest_join, c, Seq::empty());
        assert(Seq::<char>::empty() + parts[0] =~= parts[0]);
        assert((seq![c] + rest_join)[0] == c);
        assert((seq![c] + rest_join).drop_first() =~= rest_join);
        assert(split_acc(seq![c] + rest_join, c, parts[0]) == seq![parts[0]] + split_acc(
            rest_join,
            c,
            Seq::empty(),
        ));
        assert forall|i: int| 0 <= i < parts.drop_first().len() implies !(
        #[trigger] parts.drop_first()[i]).contains(c) && parts.drop_first()[i].len() > 0 by {
            assert(parts.drop_first()[i] == parts[i + 1]);
        }
        lemma_split_join(parts.drop_first(), c);
        assert(seq![parts[0]] + parts.drop_first() =~= parts);
    }
}

} // verus!
