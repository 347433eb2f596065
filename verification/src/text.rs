use vstd::prelude::*;
use vstd::string::*;
use std::collections::VecDeque;

verus! {

/// The characters of each string, in order.
pub open spec fn strs_view<'a>(q: Seq<&'a str>) -> Seq<Seq<char>> {
    Seq::new(q.len(), |i: int| q[i]@)
}

/// The line terminator of the protocol.
pub open spec fn crlf() -> Seq<char> {
    seq!['\r', '\n']
}

/// `s` holds a carriage return directly followed by a line feed at `i`.
pub open spec fn crlf_at(s: Seq<char>, i: int) -> bool {
    0 <= i && i + 1 < s.len() && s[i] == '\r' && s[i + 1] == '\n'
}

/// Puts `p` in front of the first piece of `r`.
pub open spec fn prepend_first(p: Seq<char>, r: Seq<Seq<char>>) -> Seq<Seq<char>> {
    r.update(0, p + r[0])
}

/// The pieces of `s` between the occurrences of `"\r\n"`, found from left to
/// right without overlap, as `str::split("\r\n")` gives them: one more piece than
/// there are separators, empty pieces included.
pub open spec fn split_crlf(s: Seq<char>) -> Seq<Seq<char>>
    decreases s.len(),
{
    if s.len() == 0 {
        seq![Seq::<char>::empty()]
    } else if crlf_at(s, 0) {
        seq![Seq::<char>::empty()] + split_crlf(s.skip(2))
    } else {
        prepend_first(seq![s[0]], split_crlf(s.drop_first()))
    }
}

/// What `str::split_once(' ')` gives: the text before the first space and the
/// text after it, or `None` where there is no space.
pub open spec fn split_once_space(s: Seq<char>) -> Option<(Seq<char>, Seq<char>)>
    decreases s.len(),
{
    if s.len() == 0 {
        None
    } else if s[0] == ' ' {
        Some((Seq::<char>::empty(), s.drop_first()))
    } else {
        match split_once_space(s.drop_first()) {
            Some((a, b)) => Some((seq![s[0]] + a, b)),
            None => None,
        }
    }
}

/// Splitting always gives at least one piece.
pub proof fn lemma_split_crlf_len(s: Seq<char>)
    ensures
        split_crlf(s).len() >= 1,
    decreases s.len(),
{
    if s.len() == 0 {
    } else if crlf_at(s, 0) {
        lemma_split_crlf_len(s.skip(2));
    } else {
        lemma_split_crlf_len(s.drop_first());
    }
}

/// One step of a left-to-right scan over `s` at position `i`, with `p` the text
/// of the current piece so far.
proof fn lemma_split_crlf_step(s: Seq<char>, i: int, p: Seq<char>)
    requires
        0 <= i < s.len(),
    ensures
        crlf_at(s, i) ==> prepend_first(p, split_crlf(s.skip(i))) == seq![p] + prepend_first(
            Seq::<char>::empty(),
            split_crlf(s.skip(i + 2)),
        ),
        !crlf_at(s, i) ==> prepend_first(p, split_crlf(s.skip(i))) == prepend_first(
            p.push(s[i]),
            split_crlf(s.skip(i + 1)),
        ),
{
    let t = s.skip(i);
    assert(t[0] == s[i]);
    if crlf_at(s, i) {
        assert(t.skip(2) =~= s.skip(i + 2));
        assert(crlf_at(t, 0));
        let x = split_crlf(s.skip(i + 2));
        lemma_split_crlf_len(s.skip(i + 2));
        assert(prepend_first(p, seq![Seq::<char>::empty()] + x) =~= seq![p] + prepend_first(
            Seq::<char>::empty(),
            x,
        )) by {
            assert(p + Seq::<char>::empty() =~= p);
            assert(Seq::<char>::empty() + x[0] =~= x[0]);
        }
    } else {
        if i + 1 < s.len() {
            assert(t[1] == s[i + 1]);
        }
        assert(!crlf_at(t, 0));
        assert(t.drop_first() =~= s.skip(i + 1));
        let r = split_crlf(s.skip(i + 1));
        lemma_split_crlf_len(s.skip(i + 1));
        assert(p + (seq![s[i]] + r[0]) =~= p.push(s[i]) + r[0]);
        assert(prepend_first(p, prepend_first(seq![s[i]], r)) =~= prepend_first(p.push(s[i]), r));
    }
}

/// Splits `s` at every `"\r\n"` and drops the last piece, which is the empty
/// text after the final terminator in a well-terminated message.
pub fn tokenize_resp_string<'a>(resp_string: &'a str) -> (result: VecDeque<&'a str>)
    ensures
        strs_view(result@) == split_crlf(resp_string@).drop_last(),
{
    let s = resp_string;
    let len = s.unicode_len();
    let mut result: VecDeque<&'a str> = VecDeque::new();
    let mut start: usize = 0;
    let mut i: usize = 0;
    proof {
        lemma_split_crlf_len(s@);
        assert(s@.skip(0) =~= s@);
        assert(s@.subrange(0, 0) =~= Seq::<char>::empty());
        assert(strs_view(result@) =~= Seq::<Seq<char>>::empty());
        let r = split_crlf(s@);
        assert(Seq::<char>::empty() + r[0] =~= r[0]);
        assert(prepend_first(Seq::<char>::empty(), r) =~= r);
        assert(Seq::<Seq<char>>::empty() + r =~= r);
    }
    while i < len
        invariant
            len == s@.len(),
            start <= i <= len,
            split_crlf(s@) == strs_view(result@) + prepend_first(
                s@.subrange(start as int, i as int),
                split_crlf(s@.skip(i as int)),
            ),
        decreases len - i,
    {
        let c = s.get_char(i);
        let is_sep = c == '\r' && i + 1 < len && s.get_char(i + 1) == '\n';
        proof {
            lemma_split_crlf_step(s@, i as int, s@.subrange(start as int, i as int));
            assert(is_sep == crlf_at(s@, i as int));
        }
        if is_sep {
            let piece = s.substring_char(start, i);
            let ghost old_view = strs_view(result@);
            result.push_back(piece);
            proof {
                assert(strs_view(result@) =~= old_view.push(piece@));
                let x = split_crlf(s@.skip(i + 2));
                assert(s@.subrange(i + 2, i + 2) =~= Seq::<char>::empty());
                assert(old_view + (seq![piece@] + prepend_first(Seq::<char>::empty(), x))
                    =~= old_view.push(piece@) + prepend_first(Seq::<char>::empty(), x));
            }
            i = i + 2;
            start = i;
        } else {
            proof {
                assert(s@.subrange(start as int, i as int).push(s@[i as int]) =~= s@.subrange(
                    start as int,
                    i + 1,
                ));
            }
            i = i + 1;
        }
    }
    let last = s.substring_char(start, len);
    proof {
        assert(s@.skip(len as int) =~= Seq::<char>::empty());
        assert(split_crlf(Seq::<char>::empty()) =~= seq![Seq::<char>::empty()]);
        assert(last@ + Seq::<char>::empty() =~= last@);
    }
    let ghost before = strs_view(result@);
    result.push_back(last);
    result.pop_back();
    proof {
        assert(strs_view(result@) =~= before);
        assert((before + seq![last@]).drop_last() =~= before);
        assert(prepend_first(last@, seq![Seq::<char>::empty()]) =~= seq![last@]);
    }
    result
}

/// `split_once_space` finds the first space.
proof fn lemma_split_once_space(s: Seq<char>, i: int)
    requires
        0 <= i <= s.len(),
        forall|j: int| 0 <= j < i ==> s[j] != ' ',
    ensures
        i < s.len() && s[i] == ' ' ==> split_once_space(s) == Some((s.take(i), s.skip(i + 1))),
        i == s.len() ==> split_once_space(s) is None,
    decreases i,
{
    if i > 0 {
        lemma_split_once_space(s.drop_first(), i - 1);
        assert(seq![s[0]] + s.drop_first().take(i - 1) =~= s.take(i));
        if i < s.len() {
            assert(s.drop_first().skip(i) =~= s.skip(i + 1));
        }
    } else if s.len() > 0 {
        assert(s.take(0) =~= Seq::<char>::empty());
        assert(s.skip(1) =~= s.drop_first());
    }
}

/// Splits `s` at its first space, as `str::split_once(' ')` does.
pub fn split_once_space_str<'a>(s: &'a str) -> (r: Option<(&'a str, &'a str)>)
    ensures
        match r {
            Some((a, b)) => split_once_space(s@) == Some((a@, b@)),
            None => split_once_space(s@) is None,
        },
{
    let len = s.unicode_len();
    let mut i: usize = 0;
    while i < len
        invariant
            len == s@.len(),
            i <= len,
            forall|j: int| 0 <= j < i ==> s@[j] != ' ',
        decreases len - i,
    {
        if s.get_char(i) == ' ' {
            proof {
                lemma_split_once_space(s@, i as int);
            }
            let a = s.substring_char(0, i);
            let b = s.substring_char(i + 1, len);
            proof {
                assert(a@ =~= s@.take(i as int));
                assert(b@ =~= s@.skip(i + 1));
            }
            return Some((a, b));
        }
        i = i + 1;
    }
    proof {
        lemma_split_once_space(s@, i as int);
    }
    None
}

/// `a` and `b` hold the same characters.
pub fn str_equals(a: &str, b: &str) -> (r: bool)
    ensures
        r == (a@ == b@),
{
    let n = a.unicode_len();
    if n != b.unicode_len() {
        return false;
    }
    let mut i: usize = 0;
    while i < n
        invariant
            n == a@.len(),
            n == b@.len(),
            i <= n,
            forall|j: int| 0 <= j < i ==> a@[j] == b@[j],
        decreases n - i,
    {
        if a.get_char(i) != b.get_char(i) {
            return false;
        }
        i = i + 1;
    }
    assert(a@ =~= b@);
    true
}

/// The pieces of `s` between its spaces, as `str::split(' ')` gives them: one
/// more piece than there are spaces, empty pieces included.
pub open spec fn split_spaces(s: Seq<char>) -> Seq<Seq<char>>
    decreases s.len(),
{
    if s.len() == 0 {
        seq![Seq::<char>::empty()]
    } else if s[0] == ' ' {
        seq![Seq::<char>::empty()] + split_spaces(s.drop_first())
    } else {
        prepend_first(seq![s[0]], split_spaces(s.drop_first()))
    }
}

proof fn lemma_split_spaces_len(s: Seq<char>)
    ensures
        split_spaces(s).len() >= 1,
    decreases s.len(),
{
    if s.len() > 0 {
        lemma_split_spaces_len(s.drop_first());
    }
}

/// One step of a left-to-right scan for spaces at position `i`.
proof fn lemma_split_spaces_step(s: Seq<char>, i: int, p: Seq<char>)
    requires
        0 <= i < s.len(),
    ensures
        s[i] == ' ' ==> prepend_first(p, split_spaces(s.skip(i))) == seq![p] + prepend_first(
            Seq::<char>::empty(),
            split_spaces(s.skip(i + 1)),
        ),
        s[i] != ' ' ==> prepend_first(p, split_spaces(s.skip(i))) == prepend_first(
            p.push(s[i]),
            split_spaces(s.skip(i + 1)),
        ),
{
    let t = s.skip(i);
    assert(t[0] == s[i]);
    assert(t.drop_first() =~= s.skip(i + 1));
    let r = split_spaces(s.skip(i + 1));
    lemma_split_spaces_len(s.skip(i + 1));
    if s[i] == ' ' {
        assert(prepend_first(p, seq![Seq::<char>::empty()] + r) =~= seq![p] + prepend_first(
            Seq::<char>::empty(),
            r,
        )) by {
            assert(p + Seq::<char>::empty() =~= p);
            assert(Seq::<char>::empty() + r[0] =~= r[0]);
        }
    } else {
        assert(p + (seq![s[i]] + r[0]) =~= p.push(s[i]) + r[0]);
        assert(prepend_first(p, prepend_first(seq![s[i]], r)) =~= prepend_first(p.push(s[i]), r));
    }
}

/// Splits a command line into its words at every space, as `str::split(' ')` does.
pub fn split_words<'a>(line: &'a str) -> (words: Vec<&'a str>)
    ensures
        strs_view(words@) == split_spaces(line@),
{
    let s = line;
    let len = s.unicode_len();
    let mut words: Vec<&'a str> = Vec::new();
    let mut start: usize = 0;
    let mut i: usize = 0;
    proof {
        lemma_split_spaces_len(s@);
        assert(s@.skip(0) =~= s@);
        assert(s@.subrange(0, 0) =~= Seq::<char>::empty());
        assert(strs_view(words@) =~= Seq::<Seq<char>>::empty());
        let r = split_spaces(s@);
        assert(Seq::<char>::empty() + r[0] =~= r[0]);
        assert(prepend_first(Seq::<char>::empty(), r) =~= r);
        assert(Seq::<Seq<char>>::empty() + r =~= r);
    }
    while i < len
        invariant
            len == s@.len(),
            start <= i <= len,
            split_spaces(s@) == strs_view(words@) + prepend_first(
                s@.subrange(start as int, i as int),
                split_spaces(s@.skip(i as int)),
            ),
        decreases len - i,
    {
        let c = s.get_char(i);
        proof {
            lemma_split_spaces_step(s@, i as int, s@.subrange(start as int, i as int));
        }
        if c == ' ' {
            let word = s.substring_char(start, i);
            let ghost old_view = strs_view(words@);
            words.push(word);
            proof {
                assert(strs_view(words@) =~= old_view.push(word@));
                let x = split_spaces(s@.skip(i + 1));
                assert(s@.subrange(i + 1, i + 1) =~= Seq::<char>::empty());
                assert(old_view + (seq![word@] + prepend_first(Seq::<char>::empty(), x))
                    =~= old_view.push(word@) + prepend_first(Seq::<char>::empty(), x));
            }
            i = i + 1;
            start = i;
        } else {
            proof {
                assert(s@.subrange(start as int, i as int).push(s@[i as int]) =~= s@.subrange(
                    start as int,
                    i + 1,
                ));
            }
            i = i + 1;
        }
    }
    let last = s.substring_char(start, len);
    let ghost before = strs_view(words@);
    words.push(last);
    proof {
        assert(s@.skip(len as int) =~= Seq::<char>::empty());
        assert(split_spaces(Seq::<char>::empty()) =~= seq![Seq::<char>::empty()]);
        assert(last@ + Seq::<char>::empty() =~= last@);
        assert(prepend_first(last@, seq![Seq::<char>::empty()]) =~= seq![last@]);
        assert(strs_view(words@) =~= before + seq![last@]);
    }
    words
}

} // verus!
