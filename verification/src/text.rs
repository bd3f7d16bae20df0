use vstd::prelude::*;
use crate::letter::push_char;

verus! {

/// The number of characters of `s` before its first line feed; the length
/// of `s` when it has none.
pub open spec fn line_end(s: Seq<char>) -> int
    decreases s.len(),
{
    if s.len() == 0 || s[0] == '\n' {
        0
    } else {
        1 + line_end(s.skip(1))
    }
}

/// The first line of `s`: what stands before the first line feed, without
/// the carriage return before that line feed, if there is one.
pub open spec fn first_line(s: Seq<char>) -> Seq<char> {
    let k = line_end(s);
    if 0 < k < s.len() && s[k - 1] == '\r' {
        s.take(k - 1)
    } else {
        s.take(k)
    }
}

/// The lines of a text: each ends with a line feed, or with a carriage
/// return and a line feed, which are not part of it; the last may end with
/// the text.
pub open spec fn text_lines(s: Seq<char>) -> Seq<Seq<char>>
    decreases s.len(),
{
    if s.len() == 0 {
        Seq::<Seq<char>>::empty()
    } else {
        let k = line_end(s);
        let rest = if 0 <= k < s.len() {
            s.skip(k + 1)
        } else {
            Seq::<char>::empty()
        };
        seq![first_line(s)] + text_lines(rest)
    }
}

/// The text of each string of a list.
pub open spec fn line_texts(lines: Seq<String>) -> Seq<Seq<char>> {
    Seq::new(lines.len(), |i: int| lines[i]@)
}

/// A line ends within the text.
pub proof fn lemma_line_end_bounds(s: Seq<char>)
    ensures
        0 <= line_end(s) <= s.len(),
        line_end(s) < s.len() ==> s[line_end(s)] == '\n',
        forall|j: int| 0 <= j < line_end(s) ==> #[trigger] s[j] != '\n',
    decreases s.len(),
{
    if s.len() > 0 && s[0] != '\n' {
        lemma_line_end_bounds(s.skip(1));
        assert forall|j: int| 0 <= j < line_end(s) implies #[trigger] s[j] != '\n' by {
            if j > 0 {
                assert(s.skip(1)[j - 1] == s[j]);
            }
        }
    }
}

/// After `m` characters that are no line feed, the line goes on as it does
/// from there.
pub proof fn lemma_line_end_after(s: Seq<char>, m: int)
    requires
        0 <= m <= s.len(),
        forall|j: int| 0 <= j < m ==> #[trigger] s[j] != '\n',
    ensures
        line_end(s) == m + line_end(s.skip(m)),
    decreases m,
{
    if m > 0 {
        let t = s.skip(1);
        assert forall|j: int| 0 <= j < m - 1 implies #[trigger] t[j] != '\n' by {
            assert(t[j] == s[j + 1]);
        }
        lemma_line_end_after(t, m - 1);
        assert(t.skip(m - 1) =~= s.skip(m));
    } else {
        assert(s.skip(0) =~= s);
    }
}

/// The string of the first `len` characters of `chars`.
fn string_of(chars: &Vec<char>, len: usize) -> (text: String)
    requires
        len <= chars.len(),
    ensures
        text@ == chars@.take(len as int),
{
    let mut text = String::new();
    let mut i: usize = 0;
    proof {
        assert(text@ =~= chars@.take(0));
    }
    while i < len
        invariant
            i <= len <= chars.len(),
            text@ == chars@.take(i as int),
        decreases len - i,
    {
        push_char(&mut text, chars[i]);
        proof {
            assert(text@ =~= chars@.take(i + 1));
        }
        i = i + 1;
    }
    text
}

/// The lines of `text`, each without the line feed, or the carriage return
/// and line feed, that ends it.
pub fn split_lines(text: &str) -> (lines: Vec<String>)
    ensures
        line_texts(lines@) == text_lines(text@),
{
    let ghost s = text@;
    let mut lines: Vec<String> = Vec::new();
    let mut current: Vec<char> = Vec::new();
    let ghost mut start: int = 0;
    proof {
        assert(s.skip(0) =~= s);
        assert(line_texts(lines@) + text_lines(s.skip(0)) =~= text_lines(s));
        assert(current@ =~= s.subrange(0, 0));
    }
    for c in it: text.chars()
        invariant
            it.seq() == s,
            s == text@,
            0 <= start <= it.index(),
            current@ == s.subrange(start, it.index() as int),
            forall|j: int| start <= j < it.index() ==> #[trigger] s[j] != '\n',
            line_texts(lines@) + text_lines(s.skip(start)) == text_lines(s),
    {
        let ghost i = it.index() as int;
        let ghost rest = s.skip(start);
        if c == '\n' {
            let n = current.len();
            let cut = if n > 0 && current[n - 1] == '\r' {
                n - 1
            } else {
                n
            };
            let line = string_of(&current, cut);
            let ghost shown = line_texts(lines@);
            proof {
                assert forall|j: int| 0 <= j < i - start implies #[trigger] rest[j] != '\n' by {
                    assert(rest[j] == s[start + j]);
                }
                lemma_line_end_after(rest, i - start);
                assert(rest.skip(i - start) =~= s.skip(i));
                assert(s.skip(i)[0] == '\n');
                assert(line_end(rest) == i - start);
                assert(rest.take(i - start) =~= current@);
                if n > 0 {
                    assert(rest[n - 1] == current@[n - 1]);
                }
                assert(line@ =~= first_line(rest));
                assert(rest.skip(i - start + 1) =~= s.skip(i + 1));
            }
            lines.push(line);
            current.clear();
            proof {
                start = i + 1;
                assert(line_texts(lines@) =~= shown.push(line@));
                assert(shown.push(line@) + text_lines(s.skip(i + 1)) =~= shown + (seq![line@]
                    + text_lines(s.skip(i + 1))));
                assert(current@ =~= s.subrange(start, i + 1));
            }
        } else {
            current.push(c);
            proof {
                assert(current@ =~= s.subrange(start, i + 1));
            }
        }
    }
    let n = current.len();
    if n > 0 {
        let line = string_of(&current, n);
        let ghost shown = line_texts(lines@);
        proof {
            let rest = s.skip(start);
            assert forall|j: int| 0 <= j < rest.len() implies #[trigger] rest[j] != '\n' by {
                assert(rest[j] == s[start + j]);
            }
            lemma_line_end_after(rest, rest.len() as int);
            assert(rest.skip(rest.len() as int) =~= Seq::<char>::empty());
            assert(line_end(rest) == rest.len());
            assert(current@ =~= rest);
            assert(current@.take(n as int) =~= rest.take(rest.len() as int));
            assert(line@ =~= first_line(rest));
            assert(text_lines(Seq::<char>::empty()) =~= Seq::<Seq<char>>::empty());
            assert(text_lines(rest) =~= seq![line@]);
        }
        lines.push(line);
        proof {
            assert(line_texts(lines@) =~= shown.push(line@));
            assert(shown.push(line@) =~= shown + seq![line@]);
        }
    } else {
        proof {
            assert(s.skip(start) =~= Seq::<char>::empty());
            assert(line_texts(lines@) + Seq::<Seq<char>>::empty() =~= line_texts(lines@));
        }
    }
    lines
}

} // verus!
