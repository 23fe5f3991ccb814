//! Cutting source text into lines and whitespace-separated words.

use vstd::prelude::*;
use vstd::string::*;

verus! {

/// Whether a character separates words: the characters with the Unicode
/// property `White_Space`.
pub open spec fn is_space(c: char) -> bool {
    let n = c as u32;
    (0x09 <= n <= 0x0D) || n == 0x20 || n == 0x85 || n == 0xA0 || n == 0x1680 || (0x2000 <= n
        <= 0x200A) || n == 0x2028 || n == 0x2029 || n == 0x202F || n == 0x205F || n == 0x3000
}

/// The views of the items of a sequence, in order.
pub open spec fn views<T: View>(v: Seq<T>) -> Seq<T::V> {
    Seq::new(v.len(), |i: int| v[i]@)
}

/// A word under way is closed when it is not empty.
pub open spec fn close_word(done: Seq<Seq<char>>, cur: Seq<char>) -> Seq<Seq<char>> {
    if cur.len() > 0 {
        done.push(cur)
    } else {
        done
    }
}

/// Reading `s` from left to right: the words completed so far, and the
/// characters of the word that the last character belongs to.
pub open spec fn scan_words(s: Seq<char>) -> (Seq<Seq<char>>, Seq<char>)
    decreases s.len(),
{
    if s.len() == 0 {
        (Seq::empty(), Seq::empty())
    } else {
        let (done, cur) = scan_words(s.drop_last());
        if is_space(s.last()) {
            (close_word(done, cur), Seq::empty())
        } else {
            (done, cur.push(s.last()))
        }
    }
}

/// The maximal runs of characters of `s` that hold no separator, in order.
pub open spec fn words(s: Seq<char>) -> Seq<Seq<char>> {
    let (done, cur) = scan_words(s);
    close_word(done, cur)
}

/// A line without the carriage return that may end it.
pub open spec fn strip_cr(l: Seq<char>) -> Seq<char> {
    if l.len() > 0 && l.last() == '\r' {
        l.drop_last()
    } else {
        l
    }
}

/// A line counts unless it is empty or begins with `#`.
pub open spec fn is_data_line(l: Seq<char>) -> bool {
    l.len() > 0 && l[0] != '#'
}

/// A finished line is kept when it counts.
pub open spec fn keep_line(done: Seq<Seq<char>>, l: Seq<char>) -> Seq<Seq<char>> {
    if is_data_line(l) {
        done.push(l)
    } else {
        done
    }
}

/// Reading `s` from left to right: the counting lines completed so far, and
/// the characters since the last line feed.
pub open spec fn scan_lines(s: Seq<char>) -> (Seq<Seq<char>>, Seq<char>)
    decreases s.len(),
{
    if s.len() == 0 {
        (Seq::empty(), Seq::empty())
    } else {
        let (done, cur) = scan_lines(s.drop_last());
        if s.last() == '\n' {
            (keep_line(done, strip_cr(cur)), Seq::empty())
        } else {
            (done, cur.push(s.last()))
        }
    }
}

/// The lines of `s` that count, in order. Lines end at a line feed; a carriage
/// return directly before the line feed is not part of the line; a last line
/// without a line feed is taken as it stands.
pub open spec fn data_lines(s: Seq<char>) -> Seq<Seq<char>> {
    let (done, cur) = scan_lines(s);
    keep_line(done, cur)
}

/// The views of a sequence that grew by one item.
pub proof fn lemma_views_push<T: View>(v: Seq<T>, x: T)
    ensures
        views(v.push(x)) == views(v).push(x@),
{
    assert(views(v.push(x)) =~= views(v).push(x@));
}

/// Whether `s` holds no separator.
pub open spec fn is_solid(s: Seq<char>) -> bool {
    forall|j: int| 0 <= j < s.len() ==> !is_space(#[trigger] s[j])
}

/// Whether `s` holds no line feed.
pub open spec fn is_one_line(s: Seq<char>) -> bool {
    forall|j: int| 0 <= j < s.len() ==> #[trigger] s[j] != '\n'
}

/// Reading a run of characters without a separator leaves it as the word
/// under way.
pub proof fn lemma_scan_solid(w: Seq<char>)
    requires
        is_solid(w),
    ensures
        scan_words(w) == (Seq::<Seq<char>>::empty(), w),
    decreases w.len(),
{
    if w.len() > 0 {
        lemma_scan_solid(w.drop_last());
        assert(w.drop_last().push(w.last()) =~= w);
    } else {
        assert(w =~= Seq::empty());
    }
}

/// A run of characters without a separator is one word, or none where it is empty.
pub proof fn lemma_words_of_solid(w: Seq<char>)
    requires
        is_solid(w),
    ensures
        words(w) == if w.len() > 0 {
            seq![w]
        } else {
            Seq::empty()
        },
{
    lemma_scan_solid(w);
    assert(Seq::<Seq<char>>::empty().push(w) =~= seq![w]);
}

/// A separator parts the text: the words of `a`, a separator and `b` are the
/// words of `a` followed by the words of `b`.
pub proof fn lemma_words_split(a: Seq<char>, c: char, b: Seq<char>)
    requires
        is_space(c),
    ensures
        scan_words(a + seq![c] + b) == (words(a) + scan_words(b).0, scan_words(b).1),
        words(a + seq![c] + b) == words(a) + words(b),
    decreases b.len(),
{
    let s = a + seq![c] + b;
    if b.len() == 0 {
        assert(s.drop_last() =~= a);
        assert(words(a) + Seq::<Seq<char>>::empty() =~= words(a));
    } else {
        lemma_words_split(a, c, b.drop_last());
        assert(s.drop_last() =~= a + seq![c] + b.drop_last());
        assert(s.last() == b.last());
        let (done, cur) = scan_words(b.drop_last());
        assert((words(a) + done).push(cur) =~= words(a) + done.push(cur));
    }
    let (done, cur) = scan_words(b);
    assert((words(a) + done).push(cur) =~= words(a) + done.push(cur));
}

/// Every word has at least one character and no separator.
pub proof fn lemma_words_are_solid(s: Seq<char>)
    ensures
        is_solid(scan_words(s).1),
        forall|i: int|
            0 <= i < scan_words(s).0.len() ==> (#[trigger] scan_words(s).0[i]).len() > 0
                && is_solid(scan_words(s).0[i]),
        forall|i: int|
            0 <= i < words(s).len() ==> (#[trigger] words(s)[i]).len() > 0 && is_solid(words(s)[i]),
    decreases s.len(),
{
    if s.len() > 0 {
        lemma_words_are_solid(s.drop_last());
    }
}

/// Reading a run of characters without a line feed leaves it as the line
/// under way.
pub proof fn lemma_scan_one_line(a: Seq<char>)
    requires
        is_one_line(a),
    ensures
        scan_lines(a) == (Seq::<Seq<char>>::empty(), a),
        data_lines(a) == keep_line(Seq::empty(), a),
    decreases a.len(),
{
    if a.len() > 0 {
        lemma_scan_one_line(a.drop_last());
        assert(a.drop_last().push(a.last()) =~= a);
    } else {
        assert(a =~= Seq::empty());
    }
}

/// A line feed ends a line: the counting lines of `a`, a line feed and `b`,
/// where `a` holds no line feed, are `a` without its carriage return, if it
/// counts, followed by the counting lines of `b`.
pub proof fn lemma_lines_split(a: Seq<char>, b: Seq<char>)
    requires
        is_one_line(a),
    ensures
        scan_lines(a + seq!['\n'] + b) == (
            keep_line(Seq::empty(), strip_cr(a)) + scan_lines(b).0,
            scan_lines(b).1,
        ),
        data_lines(a + seq!['\n'] + b) == keep_line(Seq::empty(), strip_cr(a)) + data_lines(b),
    decreases b.len(),
{
    let s = a + seq!['\n'] + b;
    let first = keep_line(Seq::empty(), strip_cr(a));
    if b.len() == 0 {
        assert(s.drop_last() =~= a);
        lemma_scan_one_line(a);
        assert(first + Seq::<Seq<char>>::empty() =~= first);
    } else {
        lemma_lines_split(a, b.drop_last());
        assert(s.drop_last() =~= a + seq!['\n'] + b.drop_last());
        assert(s.last() == b.last());
        let (done, cur) = scan_lines(b.drop_last());
        assert((first + done).push(strip_cr(cur)) =~= first + done.push(strip_cr(cur)));
    }
    let (done, cur) = scan_lines(b);
    assert((first + done).push(cur) =~= first + done.push(cur));
}

/// Whether `c` separates words.
pub fn is_whitespace(c: char) -> (r: bool)
    ensures
        r == is_space(c),
{
    let n: u32 = c as u32;
    (0x09 <= n && n <= 0x0D) || n == 0x20 || n == 0x85 || n == 0xA0 || n == 0x1680 || (0x2000
        <= n && n <= 0x200A) || n == 0x2028 || n == 0x2029 || n == 0x202F || n == 0x205F || n
        == 0x3000
}

/// Splits `text` into its words. A character of a `str` is reached by
/// counting from its start, so the time taken grows with the square of the
/// length of `text`.
pub fn split_whitespace(text: &str) -> (r: Vec<String>)
    ensures
        views(r@) == words(text@),
{
    let n: usize = text.unicode_len();
    let mut out: Vec<String> = Vec::new();
    let mut start: usize = 0;
    let mut i: usize = 0;
    proof {
        assert(views(out@) =~= Seq::empty());
        assert(text@.subrange(0, 0) =~= Seq::empty());
        assert(text@.take(0) =~= Seq::empty());
    }
    while i < n
        invariant
            start <= i <= n,
            n == text@.len(),
            scan_words(text@.take(i as int)) == (
                views(out@),
                text@.subrange(start as int, i as int),
            ),
        decreases n - i,
    {
        let c = text.get_char(i);
        proof {
            assert(text@.take(i + 1).drop_last() =~= text@.take(i as int));
            assert(text@.take(i + 1).last() == c);
            assert(text@.subrange(start as int, i as int).push(c) =~= text@.subrange(
                start as int,
                i + 1,
            ));
        }
        if is_whitespace(c) {
            if start < i {
                let w = text.substring_char(start, i).to_owned();
                proof {
                    lemma_views_push(out@, w);
                }
                out.push(w);
            }
            start = i + 1;
            proof {
                assert(text@.subrange(start as int, i + 1) =~= Seq::empty());
            }
        }
        i += 1;
    }
    proof {
        assert(text@.take(n as int) =~= text@);
    }
    if start < i {
        let w = text.substring_char(start, i).to_owned();
        proof {
            lemma_views_push(out@, w);
        }
        out.push(w);
    }
    out
}

/// Splits `text` into its counting lines. The time taken grows with the
/// square of the length of `text`.
pub fn split_lines(text: &str) -> (r: Vec<String>)
    ensures
        views(r@) == data_lines(text@),
{
    let n: usize = text.unicode_len();
    let mut out: Vec<String> = Vec::new();
    let mut start: usize = 0;
    let mut i: usize = 0;
    proof {
        assert(views(out@) =~= Seq::empty());
        assert(text@.subrange(0, 0) =~= Seq::empty());
        assert(text@.take(0) =~= Seq::empty());
    }
    while i < n
        invariant
            start <= i <= n,
            n == text@.len(),
            scan_lines(text@.take(i as int)) == (
                views(out@),
                text@.subrange(start as int, i as int),
            ),
        decreases n - i,
    {
        let c = text.get_char(i);
        proof {
            assert(text@.take(i + 1).drop_last() =~= text@.take(i as int));
            assert(text@.take(i + 1).last() == c);
            assert(text@.subrange(start as int, i as int).push(c) =~= text@.subrange(
                start as int,
                i + 1,
            ));
        }
        if c == '\n' {
            let mut end: usize = i;
            if start < end && text.get_char(end - 1) == '\r' {
                end = end - 1;
            }
            proof {
                assert(text@.subrange(start as int, end as int) =~= strip_cr(
                    text@.subrange(start as int, i as int),
                ));
            }
            if start < end && text.get_char(start) != '#' {
                let l = text.substring_char(start, end).to_owned();
                proof {
                    lemma_views_push(out@, l);
                }
                out.push(l);
            }
            start = i + 1;
            proof {
                assert(text@.subrange(start as int, i + 1) =~= Seq::empty());
            }
        }
        i += 1;
    }
    proof {
        assert(text@.take(n as int) =~= text@);
    }
    if start < i && text.get_char(start) != '#' {
        let l = text.substring_char(start, i).to_owned();
        proof {
            lemma_views_push(out@, l);
        }
        out.push(l);
    }
    out
}

} // verus!
