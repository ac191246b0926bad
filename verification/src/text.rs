//! Characters, substrings and separator splitting: the string groundwork the
//! store and the codec are specified and verified over.

use vstd::prelude::*;
use vstd::string::StrSliceExecFns;

verus! {

/// The characters of `s`, in order.
pub fn chars_of(s: &str) -> (r: Vec<char>)
    ensures
        r@ == s@,
{
    let n = s.unicode_len();
    let mut r: Vec<char> = Vec::new();
    let mut i: usize = 0;
    while i < n
        invariant
            i <= n,
            n == s@.len(),
            r@ == s@.take(i as int),
        decreases n - i,
    {
        let c = s.get_char(i);
        r.push(c);
        proof {
            assert(r@ =~= s@.take(i + 1));
        }
        i += 1;
    }
    proof {
        assert(s@.take(n as int) =~= s@);
    }
    r
}

/// Relies on `String::push`: appends exactly the one character.
#[verifier::external_body]
pub(crate) fn push_char(s: &mut String, c: char)
    ensures
        final(s)@ == old(s)@.push(c),
{
    s.push(c);
}

/// The string holding exactly the given characters.
pub fn string_of_chars(v: &Vec<char>) -> (r: String)
    ensures
        r@ == v@,
{
    let mut r = String::new();
    let mut i: usize = 0;
    while i < v.len()
        invariant
            i <= v@.len(),
            r@ == v@.take(i as int),
        decreases v@.len() - i,
    {
        push_char(&mut r, v[i]);
        proof {
            assert(r@ =~= v@.take(i + 1));
        }
        i += 1;
    }
    proof {
        assert(v@.take(v@.len() as int) =~= v@);
    }
    r
}

/// The lowercase image of a character sequence.
pub uninterp spec fn lower_of(s: Seq<char>) -> Seq<char>;

/// Relies on `str::to_lowercase`: the result depends on the characters alone.
#[verifier::external_body]
pub(crate) fn lowercase(s: &str) -> (r: String)
    ensures
        r@ == lower_of(s@),
{
    s.to_lowercase()
}

/// `needle` occurs contiguously somewhere in `hay`.
pub open spec fn contains_seq(hay: Seq<char>, needle: Seq<char>) -> bool {
    exists|i: int|
        0 <= i <= hay.len() - needle.len() && #[trigger] hay.subrange(i, i + needle.len())
            == needle
}

fn matches_at(hay: &Vec<char>, needle: &Vec<char>, i: usize) -> (r: bool)
    requires
        i + needle@.len() <= hay@.len(),
    ensures
        r == (hay@.subrange(i as int, i as int + needle@.len()) == needle@),
{
    let n = needle.len();
    let hl = hay.len();
    let mut j: usize = 0;
    while j < n
        invariant
            j <= n,
            n == needle@.len(),
            hl == hay@.len(),
            i + n <= hl,
            forall|t: int| 0 <= t < j ==> hay@[i + t] == needle@[t],
        decreases n - j,
    {
        if hay[i + j] != needle[j] {
            proof {
                assert(hay@.subrange(i as int, i as int + n)[j as int] == hay@[i + j]);
            }
            return false;
        }
        j += 1;
    }
    proof {
        assert(hay@.subrange(i as int, i as int + n) =~= needle@);
    }
    true
}

/// Naive substring search, exact against `contains_seq`.
pub fn contains_chars(hay: &Vec<char>, needle: &Vec<char>) -> (r: bool)
    ensures
        r == contains_seq(hay@, needle@),
{
    let h = hay.len();
    let n = needle.len();
    if n > h {
        return false;
    }
    if n == 0 {
        proof {
            assert(hay@.subrange(0, 0 + needle@.len() as int) =~= needle@);
            assert(contains_seq(hay@, needle@));
        }
        return true;
    }
    let mut i: usize = 0;
    while i <= h - n
        invariant
            0 < n <= h,
            h == hay@.len(),
            n == needle@.len(),
            i <= h - n + 1,
            forall|k: int| 0 <= k < i ==> #[trigger] hay@.subrange(k, k + n) != needle@,
        decreases h - n + 1 - i,
    {
        if matches_at(hay, needle, i) {
            return true;
        }
        i += 1;
    }
    false
}

/// The pieces of `s` between occurrences of `sep`, in order; always at least
/// one piece, and empty pieces are kept.
pub open spec fn split_seq(s: Seq<char>, sep: char) -> Seq<Seq<char>>
    decreases s.len(),
{
    if s.len() == 0 {
        seq![Seq::<char>::empty()]
    } else if s[0] == sep {
        seq![Seq::<char>::empty()] + split_seq(s.skip(1), sep)
    } else {
        let rest = split_seq(s.skip(1), sep);
        seq![seq![s[0]] + rest[0]] + rest.skip(1)
    }
}

pub proof fn lemma_split_len(s: Seq<char>, sep: char)
    ensures
        split_seq(s, sep).len() >= 1,
{
    if s.len() == 0 {
    } else if s[0] == sep {
    } else {
    }
}

/// Splitting a separator-free string yields that one piece.
pub proof fn lemma_split_no_sep(s: Seq<char>, sep: char)
    requires
        forall|i: int| 0 <= i < s.len() ==> (#[trigger] s[i]) != sep,
    ensures
        split_seq(s, sep) == seq![s],
    decreases s.len(),
{
    if s.len() == 0 {
        assert(split_seq(s, sep) =~~= seq![s]);
    } else {
        assert(s[0] != sep);
        lemma_split_no_sep(s.skip(1), sep);
        let rest = split_seq(s.skip(1), sep);
        assert(rest == seq![s.skip(1)]);
        assert(seq![s[0]] + s.skip(1) =~= s);
        assert(rest.skip(1) =~= Seq::<Seq<char>>::empty());
        assert(split_seq(s, sep) =~~= seq![s]);
    }
}

/// Splitting peels a leading separator-free piece off at its separator.
pub proof fn lemma_split_first_piece(s: Seq<char>, sep: char, p: Seq<char>, rest: Seq<char>)
    requires
        s == p + seq![sep] + rest,
        forall|i: int| 0 <= i < p.len() ==> (#[trigger] p[i]) != sep,
    ensures
        split_seq(s, sep) == seq![p] + split_seq(rest, sep),
    decreases p.len(),
{
    if p.len() == 0 {
        assert(s[0] == sep);
        assert(s.skip(1) =~= rest);
        assert(seq![Seq::<char>::empty()] =~~= seq![p]);
    } else {
        assert(s[0] == p[0]);
        assert(p[0] != sep);
        let p1 = p.skip(1);
        assert(s.skip(1) =~= p1 + seq![sep] + rest);
        assert(forall|i: int| 0 <= i < p1.len() ==> (#[trigger] p1[i]) != sep);
        lemma_split_first_piece(s.skip(1), sep, p1, rest);
        let r = split_seq(s.skip(1), sep);
        assert(r == seq![p1] + split_seq(rest, sep));
        lemma_split_len(rest, sep);
        assert(r[0] == p1);
        assert(seq![s[0]] + r[0] =~= p);
        assert(r.skip(1) =~= split_seq(rest, sep));
        assert(split_seq(s, sep) =~= seq![p] + split_seq(rest, sep));
    }
}

/// Every piece of a split is separator-free, and holds no character the
/// whole string did not hold.
pub proof fn lemma_split_pieces(s: Seq<char>, sep: char, k: int, i: int)
    requires
        0 <= k < split_seq(s, sep).len(),
        0 <= i < split_seq(s, sep)[k].len(),
    ensures
        split_seq(s, sep)[k][i] != sep,
        exists|j: int| 0 <= j < s.len() && s[j] == split_seq(s, sep)[k][i],
    decreases s.len(),
{
    if s.len() == 0 {
    } else if s[0] == sep {
        if k > 0 {
            lemma_split_pieces(s.skip(1), sep, k - 1, i);
            let c = split_seq(s.skip(1), sep)[k - 1][i];
            let j = choose|j: int| 0 <= j < s.skip(1).len() && s.skip(1)[j] == c;
            assert(s[j + 1] == c);
        }
    } else {
        let rest = split_seq(s.skip(1), sep);
        lemma_split_len(s.skip(1), sep);
        if k == 0 {
            if i == 0 {
                assert(split_seq(s, sep)[0][0] == s[0]);
            } else {
                lemma_split_pieces(s.skip(1), sep, 0, i - 1);
                assert(split_seq(s, sep)[0][i] == rest[0][i - 1]);
                let c = rest[0][i - 1];
                let j = choose|j: int| 0 <= j < s.skip(1).len() && s.skip(1)[j] == c;
                assert(s[j + 1] == c);
            }
        } else {
            lemma_split_pieces(s.skip(1), sep, k, i);
            assert(split_seq(s, sep)[k] == rest[k]);
            let c = rest[k][i];
            let j = choose|j: int| 0 <= j < s.skip(1).len() && s.skip(1)[j] == c;
            assert(s[j + 1] == c);
        }
    }
}

/// The views of a sequence of character vectors.
pub open spec fn piece_views(ps: Seq<Vec<char>>) -> Seq<Seq<char>> {
    ps.map_values(|p: Vec<char>| p@)
}

/// A partly assembled split: the current piece is still growing into the
/// first piece of what remains.
pub open spec fn glue(cur: Seq<char>, ss: Seq<Seq<char>>) -> Seq<Seq<char>> {
    seq![cur + ss[0]] + ss.skip(1)
}

/// Splits into pieces, exactly as `split_seq` describes.
pub fn split_chars(s: &Vec<char>, sep: char) -> (r: Vec<Vec<char>>)
    ensures
        piece_views(r@) == split_seq(s@, sep),
{
    let n = s.len();
    let mut done: Vec<Vec<char>> = Vec::new();
    let mut cur: Vec<char> = Vec::new();
    let mut i: usize = 0;
    proof {
        assert(s@.skip(0) =~= s@);
        lemma_split_len(s@, sep);
        let ss = split_seq(s@, sep);
        assert(Seq::<char>::empty() + ss[0] =~= ss[0]);
        assert(glue(Seq::<char>::empty(), ss) =~= ss);
        assert(piece_views(done@) =~= Seq::<Seq<char>>::empty());
        assert(piece_views(done@) + glue(cur@, split_seq(s@.skip(0), sep)) =~= ss);
    }
    while i < n
        invariant
            i <= n,
            n == s@.len(),
            split_seq(s@, sep) == piece_views(done@) + glue(cur@, split_seq(s@.skip(i as int), sep)),
        decreases n - i,
    {
        let c = s[i];
        proof {
            let tail = s@.skip(i as int);
            assert(tail.len() > 0);
            assert(tail[0] == s@[i as int]);
            assert(tail.skip(1) =~= s@.skip(i + 1));
            lemma_split_len(s@.skip(i + 1), sep);
        }
        if c == sep {
            proof {
                let next = split_seq(s@.skip(i + 1), sep);
                assert(split_seq(s@.skip(i as int), sep) == seq![Seq::<char>::empty()] + next);
                assert(glue(cur@, seq![Seq::<char>::empty()] + next) =~= seq![cur@] + next);
                assert(piece_views(done@.push(cur)) =~= piece_views(done@).push(cur@));
                assert(glue(Seq::<char>::empty(), next)[0] == Seq::<char>::empty() + next[0]);
                assert(Seq::<char>::empty() + next[0] =~= next[0]);
                assert(glue(Seq::<char>::empty(), next) =~= next);
                assert(piece_views(done@.push(cur)) + glue(Seq::<char>::empty(), next)
                    =~= piece_views(done@) + glue(cur@, split_seq(s@.skip(i as int), sep)));
            }
            done.push(cur);
            cur = Vec::new();
        } else {
            proof {
                let next = split_seq(s@.skip(i + 1), sep);
                assert(split_seq(s@.skip(i as int), sep) == seq![seq![s@[i as int]] + next[0]]
                    + next.skip(1));
                assert(cur@ + (seq![s@[i as int]] + next[0]) =~= cur@.push(s@[i as int]) + next[0]);
                assert(glue(cur@, split_seq(s@.skip(i as int), sep)) =~= glue(
                    cur@.push(s@[i as int]),
                    next,
                ));
            }
            cur.push(c);
        }
        i += 1;
    }
    proof {
        assert(s@.skip(n as int) =~= Seq::<char>::empty());
        assert(split_seq(Seq::<char>::empty(), sep) == seq![Seq::<char>::empty()]);
        let last = split_seq(s@.skip(n as int), sep);
        assert(glue(cur@, last) =~= seq![cur@]);
        assert(piece_views(done@.push(cur)) =~= piece_views(done@).push(cur@));
        assert(piece_views(done@.push(cur)) =~= piece_views(done@) + seq![cur@]);
    }
    done.push(cur);
    done
}

} // verus!
