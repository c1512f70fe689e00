//! Character-sequence utilities: substring containment, splitting a text
//! into separator-delimited pieces, and joining lines back into one text.

use vstd::prelude::*;

verus! {

/// `needle` occurs as a contiguous substring of `hay`.
pub open spec fn contains_seq(hay: Seq<char>, needle: Seq<char>) -> bool {
    exists|i: int|
        0 <= i && i + needle.len() <= hay.len() && #[trigger] hay.subrange(i, i + needle.len())
            == needle
}

/// Substring search by direct character comparison.
pub fn contains_sub(hay: &str, needle: &str) -> (found: bool)
    ensures
        found == contains_seq(hay@, needle@),
{
    let hay_len = hay.unicode_len();
    let needle_len = needle.unicode_len();
    if needle_len > hay_len {
        assert(!contains_seq(hay@, needle@));
        return false;
    }
    if needle_len == 0 {
        proof {
            assert(hay@.subrange(0, 0 + needle@.len() as int) =~= needle@);
        }
        return true;
    }
    let mut i: usize = 0;
    while i <= hay_len - needle_len
        invariant
            1 <= needle_len <= hay_len,
            hay_len == hay@.len(),
            needle_len == needle@.len(),
            i <= hay_len - needle_len + 1,
            forall|k: int|
                0 <= k < i ==> #[trigger] hay@.subrange(k, k + needle@.len() as int) != needle@,
        decreases hay_len - needle_len - i + 1,
    {
        let mut j: usize = 0;
        let mut mismatch = false;
        while j < needle_len
            invariant
                needle_len <= hay_len,
                hay_len == hay@.len(),
                needle_len == needle@.len(),
                i + needle_len <= hay_len,
                j <= needle_len,
                !mismatch ==> forall|k: int| 0 <= k < j ==> hay@[i + k] == needle@[k],
                mismatch ==> hay@.subrange(i as int, i + needle@.len() as int) != needle@,
            decreases needle_len - j,
        {
            if hay.get_char(i + j) != needle.get_char(j) {
                proof {
                    let sub = hay@.subrange(i as int, i + needle@.len() as int);
                    assert(sub[j as int] == hay@[i + j]);
                }
                mismatch = true;
                j = needle_len;
            } else {
                j = j + 1;
            }
        }
        if !mismatch {
            proof {
                assert(hay@.subrange(i as int, i + needle@.len() as int) =~= needle@);
            }
            return true;
        }
        i = i + 1;
    }
    assert forall|k: int| 0 <= k && k + needle@.len() <= hay@.len() implies #[trigger] hay@.subrange(
        k,
        k + needle@.len() as int,
    ) != needle@ by {
        assert(k < i);
    }
    false
}

/// A single character occurs in `s`.
pub fn contains_char(s: &str, c: char) -> (found: bool)
    ensures
        found == s@.contains(c),
{
    let n = s.unicode_len();
    let mut i: usize = 0;
    while i < n
        invariant
            n == s@.len(),
            i <= n,
            forall|k: int| 0 <= k < i ==> s@[k] != c,
        decreases n - i,
    {
        if s.get_char(i) == c {
            return true;
        }
        i = i + 1;
    }
    false
}

/// Splits `s` at every occurrence of `sep`. A trailing separator closes the
/// final piece without opening an empty one, so a text of `n` lines each
/// ended by a newline splits into exactly those `n` lines.
pub open spec fn split_on(s: Seq<char>, sep: char) -> Seq<Seq<char>>
    decreases s.len(),
{
    if s.len() == 0 {
        Seq::empty()
    } else {
        let rest = split_on(s.drop_first(), sep);
        if s[0] == sep {
            seq![Seq::<char>::empty()] + rest
        } else {
            if rest.len() == 0 {
                seq![seq![s[0]]]
            } else {
                seq![seq![s[0]] + rest[0]] + rest.drop_first()
            }
        }
    }
}

/// The non-empty pieces, in order.
pub open spec fn nonempty_pieces(pieces: Seq<Seq<char>>) -> Seq<Seq<char>>
    decreases pieces.len(),
{
    if pieces.len() == 0 {
        Seq::empty()
    } else {
        let rest = nonempty_pieces(pieces.drop_last());
        if pieces.last().len() > 0 {
            rest.push(pieces.last())
        } else {
            rest
        }
    }
}

/// Joins lines into one text, every line followed by one newline.
pub open spec fn join_lines(lines: Seq<Seq<char>>) -> Seq<char>
    decreases lines.len(),
{
    if lines.len() == 0 {
        Seq::empty()
    } else {
        lines[0] + seq!['\n'] + join_lines(lines.drop_first())
    }
}

/// A character occurs in a concatenation exactly when it occurs in one of
/// the parts.
pub proof fn lemma_concat_contains(a: Seq<char>, b: Seq<char>, c: char)
    ensures
        (a + b).contains(c) <==> (a.contains(c) || b.contains(c)),
{
    if a.contains(c) {
        let i = choose|i: int| 0 <= i < a.len() && a[i] == c;
        assert((a + b)[i] == c);
    }
    if b.contains(c) {
        let i = choose|i: int| 0 <= i < b.len() && b[i] == c;
        assert((a + b)[a.len() + i] == c);
    }
    if (a + b).contains(c) {
        let i = choose|i: int| 0 <= i < (a + b).len() && (a + b)[i] == c;
        if i < a.len() {
            assert(a[i] == c);
        } else {
            assert(b[i - a.len()] == c);
        }
    }
}

/// No piece that `split_on` returns contains the separator.
pub proof fn lemma_split_on_no_sep(s: Seq<char>, sep: char)
    ensures
        forall|i: int|
            0 <= i < split_on(s, sep).len() ==> !(#[trigger] split_on(s, sep)[i]).contains(sep),
    decreases s.len(),
{
    if s.len() == 0 {
    } else {
        lemma_split_on_no_sep(s.drop_first(), sep);
        let rest = split_on(s.drop_first(), sep);
        if s[0] == sep {
            assert(forall|i: int|
                0 <= i < split_on(s, sep).len() ==> !(#[trigger] split_on(s, sep)[i]).contains(sep));
        } else {
            if rest.len() == 0 {
                assert(!split_on(s, sep)[0].contains(sep));
            } else {
                assert(!(seq![s[0]] + rest[0]).contains(sep)) by {
                    assert(!rest[0].contains(sep));
                    assert(forall|k: int|
                        0 <= k < (seq![s[0]] + rest[0]).len() && k >= 1 ==> (seq![s[0]]
                            + rest[0])[k] == rest[0][k - 1]);
                }
            }
        }
    }
}

/// A separator-free piece followed by a separator splits off whole.
pub proof fn lemma_split_on_boundary(l: Seq<char>, t: Seq<char>, sep: char)
    requires
        !l.contains(sep),
    ensures
        split_on(l + seq![sep] + t, sep) == seq![l] + split_on(t, sep),
    decreases l.len(),
{
    let s = l + seq![sep] + t;
    if l.len() == 0 {
        assert(s =~= seq![sep] + t);
        assert(s.len() > 0);
        assert(s[0] == sep);
        assert(s.drop_first() =~= t);
        assert(split_on(s, sep) == seq![Seq::<char>::empty()] + split_on(s.drop_first(), sep));
        assert(l =~= Seq::<char>::empty());
        assert(seq![Seq::<char>::empty()] + split_on(t, sep) =~= seq![l] + split_on(t, sep));
    } else {
        assert(s[0] == l[0]);
        assert(l[0] != sep);
        assert(s.drop_first() =~= l.drop_first() + seq![sep] + t);
        assert(!l.drop_first().contains(sep)) by {
            assert(forall|k: int| 0 <= k < l.drop_first().len() ==> l.drop_first()[k] == l[k + 1]);
        }
        lemma_split_on_boundary(l.drop_first(), t, sep);
        let rest = split_on(s.drop_first(), sep);
        assert(rest == seq![l.drop_first()] + split_on(t, sep));
        assert(rest.len() > 0);
        assert(rest[0] == l.drop_first());
        assert(seq![s[0]] + rest[0] =~= l);
        assert(rest.drop_first() =~= split_on(t, sep));
        assert(split_on(s, sep) == seq![seq![s[0]] + rest[0]] + rest.drop_first());
        assert(seq![seq![s[0]] + rest[0]] + rest.drop_first() =~= seq![l] + split_on(t, sep));
    }
}

/// A non-empty separator-free text is one single piece.
pub proof fn lemma_split_on_whole(l: Seq<char>, sep: char)
    requires
        !l.contains(sep),
        l.len() > 0,
    ensures
        split_on(l, sep) == seq![l],
    decreases l.len(),
{
    if l.len() == 1 {
        assert(l[0] != sep);
        assert(l.drop_first() =~= Seq::<char>::empty());
        assert(split_on(Seq::<char>::empty(), sep) =~= Seq::<Seq<char>>::empty());
        assert(split_on(l, sep) == seq![seq![l[0]]]);
        assert(seq![l[0]] =~= l);
        assert(seq![seq![l[0]]] =~= seq![l]);
    } else {
        assert(!l.drop_first().contains(sep)) by {
            assert(forall|k: int| 0 <= k < l.drop_first().len() ==> l.drop_first()[k] == l[k + 1]);
        }
        lemma_split_on_whole(l.drop_first(), sep);
        assert(l[0] != sep);
        assert(seq![l[0]] + l.drop_first() =~= l);
        assert(split_on(l, sep) =~= seq![l]);
    }
}

/// Splitting the join of newline-free lines gives the lines back.
pub proof fn lemma_split_join(lines: Seq<Seq<char>>)
    requires
        forall|i: int| 0 <= i < lines.len() ==> !(#[trigger] lines[i]).contains('\n'),
    ensures
        split_on(join_lines(lines), '\n') == lines,
    decreases lines.len(),
{
    if lines.len() == 0 {
    } else {
        lemma_split_join(lines.drop_first());
        lemma_split_on_boundary(lines[0], join_lines(lines.drop_first()), '\n');
        assert(join_lines(lines) =~= lines[0] + seq!['\n'] + join_lines(lines.drop_first()));
        assert(split_on(join_lines(lines), '\n') =~= lines);
    }
}

/// Joining distributes over appending one more line.
pub proof fn lemma_join_push(lines: Seq<Seq<char>>, l: Seq<char>)
    ensures
        join_lines(lines.push(l)) == join_lines(lines) + l + seq!['\n'],
    decreases lines.len(),
{
    if lines.len() == 0 {
        assert(lines.push(l).drop_first() =~= Seq::<Seq<char>>::empty());
        assert(join_lines(Seq::<Seq<char>>::empty()) =~= Seq::<char>::empty());
        assert(lines.push(l)[0] == l);
        assert(join_lines(lines.push(l)) == l + seq!['\n'] + join_lines(
            Seq::<Seq<char>>::empty(),
        ));
        assert(join_lines(lines.push(l)) =~= join_lines(lines) + l + seq!['\n']);
    } else {
        assert(lines.push(l).drop_first() =~= lines.drop_first().push(l));
        lemma_join_push(lines.drop_first(), l);
        assert(join_lines(lines.push(l)) == lines[0] + seq!['\n'] + join_lines(
            lines.drop_first().push(l),
        ));
        assert(join_lines(lines.push(l)) =~= join_lines(lines) + l + seq!['\n']);
    }
}

/// Splits a string at every occurrence of `sep`.
pub fn split_sep(s: &str, sep: char) -> (pieces: Vec<String>)
    ensures
        pieces.deep_view() == split_on(s@, sep),
{
    let n = s.unicode_len();
    let mut pieces: Vec<String> = Vec::new();
    let mut start: usize = 0;
    let mut i: usize = 0;
    proof {
        assert(s@.subrange(0, n as int) =~= s@);
        assert(pieces.deep_view() =~= Seq::<Seq<char>>::empty());
        assert(Seq::<Seq<char>>::empty() + split_on(s@, sep) =~= split_on(s@, sep));
    }
    while i < n
        invariant
            n == s@.len(),
            start <= i <= n,
            forall|k: int| start <= k < i ==> s@[k] != sep,
            pieces.deep_view() + split_on(s@.subrange(start as int, n as int), sep) == split_on(
                s@,
                sep,
            ),
        decreases n - i,
    {
        if s.get_char(i) == sep {
            let piece = s.substring_char(start, i).to_owned();
            let ghost prev = pieces.deep_view();
            proof {
                let tail = s@.subrange(start as int, n as int);
                let l = s@.subrange(start as int, i as int);
                let t = s@.subrange(i + 1, n as int);
                assert(!l.contains(sep));
                assert(tail =~= l + seq![sep] + t);
                lemma_split_on_boundary(l, t, sep);
                assert(prev.push(l) + split_on(t, sep) =~= prev + (seq![l] + split_on(t, sep)));
            }
            pieces.push(piece);
            proof {
                assert(pieces.deep_view() =~= prev.push(s@.subrange(start as int, i as int)));
            }
            start = i + 1;
        }
        i = i + 1;
    }
    if start < n {
        let piece = s.substring_char(start, n).to_owned();
        let ghost prev = pieces.deep_view();
        proof {
            let l = s@.subrange(start as int, n as int);
            assert(!l.contains(sep));
            lemma_split_on_whole(l, sep);
            assert(prev.push(l) =~= prev + seq![l]);
        }
        pieces.push(piece);
        proof {
            assert(pieces.deep_view() =~= prev.push(s@.subrange(start as int, n as int)));
        }
    } else {
        proof {
            assert(s@.subrange(start as int, n as int) =~= Seq::<char>::empty());
            assert(pieces.deep_view() + split_on(Seq::<char>::empty(), sep) =~= pieces.deep_view());
        }
    }
    pieces
}

} // verus!
