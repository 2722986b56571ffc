//! Splitting text into lines, words and path segments.
use crate::datum::{
    digest_all, duplicate_all, hash_all, lemma_text_model, models, same_all, Datum,
};
use vstd::prelude::*;

verus! {

/// The texts held by a list of character vectors.
pub open spec fn texts(items: Seq<Vec<char>>) -> Seq<Seq<char>> {
    Seq::new(items.len(), |i: int| items[i]@)
}

/// White space: the characters that Unicode classes as `White_Space`.
pub open spec fn is_space(c: char) -> bool {
    let n = c as u32;
    ||| 0x09 <= n <= 0x0D
    ||| n == 0x20
    ||| n == 0x85
    ||| n == 0xA0
    ||| n == 0x1680
    ||| 0x2000 <= n <= 0x200A
    ||| n == 0x2028
    ||| n == 0x2029
    ||| n == 0x202F
    ||| n == 0x205F
    ||| n == 0x3000
}

pub fn is_whitespace(c: char) -> (b: bool)
    ensures
        b == is_space(c),
{
    let n = c as u32;
    (0x09 <= n && n <= 0x0D) || n == 0x20 || n == 0x85 || n == 0xA0 || n == 0x1680 || (0x2000 <= n
        && n <= 0x200A) || n == 0x2028 || n == 0x2029 || n == 0x202F || n == 0x205F || n == 0x3000
}

/// The pieces of `text` between occurrences of `sep`, read left to right:
/// a separator closes the piece being read and opens an empty one, any other
/// character joins the piece being read. There is always at least one piece.
pub open spec fn split(text: Seq<char>, sep: char) -> Seq<Seq<char>>
    decreases text.len(),
{
    if text.len() == 0 {
        seq![Seq::empty()]
    } else {
        let before = split(text.drop_last(), sep);
        if text.last() == sep {
            before.push(Seq::empty())
        } else {
            before.drop_last().push(before.last().push(text.last()))
        }
    }
}

/// Splits `text` at every occurrence of `sep`.
pub fn split_on(text: &Vec<char>, sep: char) -> (pieces: Vec<Vec<char>>)
    ensures
        texts(pieces@) == split(text@, sep),
{
    let mut pieces: Vec<Vec<char>> = Vec::new();
    let mut piece: Vec<char> = Vec::new();
    let mut i: usize = 0;
    proof {
        assert(text@.take(0) =~= Seq::empty());
        assert(texts(pieces@).push(piece@) =~= seq![Seq::empty()]);
    }
    while i < text.len()
        invariant
            i <= text.len(),
            split(text@.take(i as int), sep) == texts(pieces@).push(piece@),
        decreases text.len() - i,
    {
        let c = text[i];
        let ghost done = texts(pieces@);
        let ghost open = piece@;
        proof {
            assert(text@.take(i + 1).drop_last() =~= text@.take(i as int));
            assert(text@.take(i + 1).last() == c);
            assert(done.push(open).drop_last() =~= done);
        }
        if c == sep {
            pieces.push(piece);
            piece = Vec::new();
            proof {
                assert(texts(pieces@) =~= done.push(open));
            }
        } else {
            piece.push(c);
            proof {
                assert(texts(pieces@) =~= done);
            }
        }
        i += 1;
    }
    proof {
        assert(text@.take(text@.len() as int) =~= text@);
    }
    let ghost done = texts(pieces@);
    let ghost open = piece@;
    pieces.push(piece);
    proof {
        assert(texts(pieces@) =~= done.push(open));
    }
    pieces
}

/// The words read so far and the word being read, if any: white space
/// closes the word being read, any other character joins it.
pub open spec fn words_open(text: Seq<char>) -> (Seq<Seq<char>>, Seq<char>)
    decreases text.len(),
{
    if text.len() == 0 {
        (Seq::empty(), Seq::empty())
    } else {
        let (done, open) = words_open(text.drop_last());
        if is_space(text.last()) {
            if open.len() > 0 {
                (done.push(open), Seq::empty())
            } else {
                (done, Seq::empty())
            }
        } else {
            (done, open.push(text.last()))
        }
    }
}

/// The maximal runs of characters of `text` that are not white space, in
/// order.
pub open spec fn words(text: Seq<char>) -> Seq<Seq<char>> {
    let (done, open) = words_open(text);
    if open.len() > 0 {
        done.push(open)
    } else {
        done
    }
}

/// Splits `text` at white space; no word is empty.
pub fn split_words(text: &Vec<char>) -> (found: Vec<Vec<char>>)
    ensures
        texts(found@) == words(text@),
{
    let mut found: Vec<Vec<char>> = Vec::new();
    let mut word: Vec<char> = Vec::new();
    let mut i: usize = 0;
    proof {
        assert(text@.take(0) =~= Seq::empty());
        assert(texts(found@) =~= Seq::empty());
    }
    while i < text.len()
        invariant
            i <= text.len(),
            words_open(text@.take(i as int)) == (texts(found@), word@),
        decreases text.len() - i,
    {
        let c = text[i];
        let ghost done = texts(found@);
        let ghost open = word@;
        proof {
            assert(text@.take(i + 1).drop_last() =~= text@.take(i as int));
            assert(text@.take(i + 1).last() == c);
        }
        if is_whitespace(c) {
            if word.len() > 0 {
                found.push(word);
                proof {
                    assert(texts(found@) =~= done.push(open));
                }
            } else {
                proof {
                    assert(texts(found@) =~= done);
                }
            }
            word = Vec::new();
        } else {
            word.push(c);
            proof {
                assert(texts(found@) =~= done);
            }
        }
        i += 1;
    }
    proof {
        assert(text@.take(text@.len() as int) =~= text@);
    }
    if word.len() > 0 {
        let ghost done = texts(found@);
        let ghost open = word@;
        found.push(word);
        proof {
            assert(texts(found@) =~= done.push(open));
        }
    }
    found
}

/// A line without the carriage return that stood before its line feed.
pub open spec fn strip_cr(line: Seq<char>) -> Seq<char> {
    if line.len() > 0 && line.last() == '\r' {
        line.drop_last()
    } else {
        line
    }
}

/// The lines closed so far and the line being read: a line feed closes the
/// line being read, and a carriage return directly before it is dropped.
pub open spec fn lines_open(text: Seq<char>) -> (Seq<Seq<char>>, Seq<char>)
    decreases text.len(),
{
    if text.len() == 0 {
        (Seq::empty(), Seq::empty())
    } else {
        let (done, open) = lines_open(text.drop_last());
        if text.last() == '\n' {
            (done.push(strip_cr(open)), Seq::empty())
        } else {
            (done, open.push(text.last()))
        }
    }
}

/// The lines of `text`. Each line ends at a line feed, or at a carriage
/// return and a line feed; the last line needs no line ending, and a text
/// that ends in one has no empty line after it.
pub open spec fn lines(text: Seq<char>) -> Seq<Seq<char>> {
    let (done, open) = lines_open(text);
    if open.len() > 0 {
        done.push(open)
    } else {
        done
    }
}

/// Splits `text` into its lines.
pub fn split_lines(text: &Vec<char>) -> (found: Vec<Vec<char>>)
    ensures
        texts(found@) == lines(text@),
{
    let mut found: Vec<Vec<char>> = Vec::new();
    let mut line: Vec<char> = Vec::new();
    let mut i: usize = 0;
    proof {
        assert(text@.take(0) =~= Seq::empty());
        assert(texts(found@) =~= Seq::empty());
    }
    while i < text.len()
        invariant
            i <= text.len(),
            lines_open(text@.take(i as int)) == (texts(found@), line@),
        decreases text.len() - i,
    {
        let c = text[i];
        let ghost done = texts(found@);
        let ghost open = line@;
        proof {
            assert(text@.take(i + 1).drop_last() =~= text@.take(i as int));
            assert(text@.take(i + 1).last() == c);
        }
        if c == '\n' {
            if line.len() > 0 && line[line.len() - 1] == '\r' {
                line.pop();
            }
            proof {
                assert(line@ =~= strip_cr(open));
            }
            found.push(line);
            line = Vec::new();
            proof {
                assert(texts(found@) =~= done.push(strip_cr(open)));
            }
        } else {
            line.push(c);
            proof {
                assert(texts(found@) =~= done);
            }
        }
        i += 1;
    }
    proof {
        assert(text@.take(text@.len() as int) =~= text@);
    }
    if line.len() > 0 {
        let ghost done = texts(found@);
        let ghost open = line@;
        found.push(line);
        proof {
            assert(texts(found@) =~= done.push(open));
        }
    }
    found
}

/// The model of a list of texts is the list of the texts.
pub proof fn lemma_texts_model(items: Vec<Vec<char>>)
    ensures
        items.model() == texts(items@),
{
    assert forall|i: int| 0 <= i < items@.len() implies (#[trigger] items@[i]).model()
        == items@[i]@ by {
        lemma_text_model(items@[i]);
    }
    assert(models(items@) =~= texts(items@));
}

/// Whether two texts are equal.
pub fn same_text(left: &Vec<char>, right: &Vec<char>) -> (b: bool)
    ensures
        b == (left@ == right@),
{
    proof {
        lemma_text_model(*left);
        lemma_text_model(*right);
    }
    same_all(left, right)
}

/// A copy of a text.
pub fn copy_text(text: &Vec<char>) -> (copy: Vec<char>)
    ensures
        copy@ == text@,
{
    let copy = duplicate_all(text);
    proof {
        lemma_text_model(*text);
        lemma_text_model(copy);
    }
    copy
}

/// Whether two lists of texts are equal.
pub fn same_texts(left: &Vec<Vec<char>>, right: &Vec<Vec<char>>) -> (b: bool)
    ensures
        b == (texts(left@) == texts(right@)),
{
    proof {
        lemma_texts_model(*left);
        lemma_texts_model(*right);
    }
    same_all(left, right)
}

/// A copy of a list of texts.
pub fn copy_texts(items: &Vec<Vec<char>>) -> (copy: Vec<Vec<char>>)
    ensures
        texts(copy@) == texts(items@),
{
    let copy = duplicate_all(items);
    proof {
        lemma_texts_model(*items);
        lemma_texts_model(copy);
    }
    copy
}

/// The digest of a text.
pub open spec fn text_digest(text: Seq<char>) -> u64 {
    digest_all::<char>(text)
}

/// Computes the digest of a text.
pub fn hash_text(text: &Vec<char>) -> (h: u64)
    ensures
        h == text_digest(text@),
{
    proof {
        lemma_text_model(*text);
    }
    hash_all(text)
}

/// The digest of a list of texts.
pub open spec fn texts_digest(items: Seq<Seq<char>>) -> u64 {
    digest_all::<Vec<char>>(items)
}

/// Computes the digest of a list of texts.
pub fn hash_texts(items: &Vec<Vec<char>>) -> (h: u64)
    ensures
        h == texts_digest(texts(items@)),
{
    proof {
        lemma_texts_model(*items);
    }
    hash_all(items)
}

} // verus!
