//! Prefix tests and field splitting on character sequences.
use vstd::prelude::*;

verus! {

/// Whether `s` begins with `prefix`.
pub open spec fn has_prefix(s: Seq<char>, prefix: Seq<char>) -> bool {
    prefix.len() <= s.len() && s.take(prefix.len() as int) == prefix
}

/// The pieces of `s` between occurrences of `sep`, as `str::split` yields
/// them: one more piece than there are separators, empty pieces included.
pub open spec fn split_on(s: Seq<char>, sep: char) -> Seq<Seq<char>>
    decreases s.len(),
{
    if s.len() == 0 {
        seq![Seq::<char>::empty()]
    } else {
        let rest = split_on(s.drop_first(), sep);
        if s[0] == sep {
            seq![Seq::<char>::empty()] + rest
        } else {
            rest.update(0, seq![s[0]] + rest[0])
        }
    }
}

proof fn lemma_split_nonempty(s: Seq<char>, sep: char)
    ensures
        split_on(s, sep).len() >= 1,
    decreases s.len(),
{
    if s.len() > 0 {
        lemma_split_nonempty(s.drop_first(), sep);
    }
}

/// Text without the separator is a single piece.
pub proof fn lemma_split_without_sep(s: Seq<char>, sep: char)
    requires
        !s.contains(sep),
    ensures
        split_on(s, sep) == seq![s],
    decreases s.len(),
{
    if s.len() == 0 {
        assert(s =~= Seq::<char>::empty());
    } else {
        let t = s.drop_first();
        assert(!t.contains(sep)) by {
            if t.contains(sep) {
                let w = choose|w: int| 0 <= w < t.len() && t[w] == sep;
                assert(s[w + 1] == sep);
            }
        }
        assert(s[0] != sep) by {
            assert(s.contains(s[0]));
        }
        lemma_split_without_sep(t, sep);
        assert(seq![s[0]] + t =~= s);
        assert(seq![t].update(0, seq![s[0]] + t) =~= seq![s]);
    }
}

/// A piece without the separator, then the separator, then more text splits
/// into that piece followed by the pieces of the rest.
pub proof fn lemma_split_after_piece(p: Seq<char>, sep: char, rest: Seq<char>)
    requires
        !p.contains(sep),
    ensures
        split_on(p + seq![sep] + rest, sep) == seq![p] + split_on(rest, sep),
    decreases p.len(),
{
    let s = p + seq![sep] + rest;
    lemma_split_nonempty(rest, sep);
    if p.len() == 0 {
        assert(s[0] == sep);
        assert(s.drop_first() =~= rest);
        assert(p =~= Seq::<char>::empty());
    } else {
        let p1 = p.drop_first();
        assert(!p1.contains(sep)) by {
            if p1.contains(sep) {
                let w = choose|w: int| 0 <= w < p1.len() && p1[w] == sep;
                assert(p[w + 1] == sep);
            }
        }
        assert(p[0] != sep) by {
            assert(p.contains(p[0]));
        }
        lemma_split_after_piece(p1, sep, rest);
        assert(s.drop_first() =~= p1 + seq![sep] + rest);
        assert(s[0] == p[0]);
        let r = split_on(p1 + seq![sep] + rest, sep);
        assert(r.update(0, seq![p[0]] + r[0]) =~= seq![p] + split_on(rest, sep)) by {
            assert(seq![p[0]] + p1 =~= p);
        }
    }
}

/// Whether `s` begins with `prefix`, as `str::starts_with` answers it.
pub fn starts_with(s: &str, prefix: &str) -> (r: bool)
    ensures
        r == has_prefix(s@, prefix@),
{
    let n: usize = prefix.unicode_len();
    let len: usize = s.unicode_len();
    if n > len {
        return false;
    }
    let mut i: usize = 0;
    while i < n
        invariant
            n == prefix@.len(),
            len == s@.len(),
            n <= len,
            i <= n,
            forall|j: int| 0 <= j < i ==> s@[j] == prefix@[j],
        decreases n - i,
    {
        if s.get_char(i) != prefix.get_char(i) {
            assert(s@.take(n as int)[i as int] != prefix@[i as int]);
            return false;
        }
        i = i + 1;
    }
    assert(s@.take(n as int) =~= prefix@);
    true
}

/// Piece number `index` of `s` split at `sep` (counting from zero), or
/// `None` when `s` has no more than `index` pieces.
pub fn split_field(s: &str, sep: char, index: usize) -> (field: Option<String>)
    ensures
        field matches Some(f) ==> index < split_on(s@, sep).len() && f@ == split_on(s@, sep)[index as int],
        field is None ==> index >= split_on(s@, sep).len(),
{
    let len: usize = s.unicode_len();
    let mut count: usize = 0;
    let mut field_start: usize = 0;
    let mut i: usize = 0;
    let ghost mut done: Seq<Seq<char>> = Seq::empty();
    proof {
        assert(s@.skip(0) =~= s@);
        lemma_split_nonempty(s@, sep);
        assert(s@.subrange(0, 0) + split_on(s@, sep)[0] =~= split_on(s@, sep)[0]);
        assert(split_on(s@, sep) =~= done + seq![s@.subrange(0, 0) + split_on(s@.skip(0), sep)[0]]
            + split_on(s@.skip(0), sep).drop_first());
    }
    while i < len
        invariant
            len == s@.len(),
            field_start <= i <= len,
            count <= index,
            done.len() == count,
            split_on(s@.skip(i as int), sep).len() >= 1,
            split_on(s@, sep) =~= done + seq![
                s@.subrange(field_start as int, i as int) + split_on(s@.skip(i as int), sep)[0],
            ] + split_on(s@.skip(i as int), sep).drop_first(),
        decreases len - i,
    {
        let c = s.get_char(i);
        let ghost t = s@.skip(i as int);
        let ghost t1 = s@.skip(i + 1);
        proof {
            assert(t.drop_first() =~= t1);
            assert(t[0] == c);
            lemma_split_nonempty(t1, sep);
        }
        if c == sep {
            proof {
                assert(split_on(t, sep) =~= seq![Seq::<char>::empty()] + split_on(t1, sep));
            }
            if count == index {
                let f = s.substring_char(field_start, i);
                let r = String::from_str(f);
                proof {
                    assert(split_on(s@, sep)[index as int] =~= s@.subrange(field_start as int, i as int) + Seq::<char>::empty());
                }
                return Some(r);
            }
            proof {
                let cur = s@.subrange(field_start as int, i as int);
                assert(cur + split_on(t, sep)[0] =~= cur);
                assert(split_on(t, sep).drop_first() =~= split_on(t1, sep));
                assert(s@.subrange(i + 1, i + 1) + split_on(t1, sep)[0] =~= split_on(t1, sep)[0]);
                assert(split_on(t1, sep) =~= seq![split_on(t1, sep)[0]] + split_on(t1, sep).drop_first());
                assert(split_on(s@, sep) =~= done.push(cur) + seq![
                    s@.subrange(i + 1, i + 1) + split_on(t1, sep)[0],
                ] + split_on(t1, sep).drop_first());
                done = done.push(cur);
            }
            count = count + 1;
            field_start = i + 1;
        } else {
            proof {
                let r1 = split_on(t1, sep);
                assert(split_on(t, sep) =~= r1.update(0, seq![c] + r1[0]));
                assert(s@.subrange(field_start as int, i + 1) =~= s@.subrange(field_start as int, i as int).push(c));
                assert(s@.subrange(field_start as int, i as int) + split_on(t, sep)[0]
                    =~= s@.subrange(field_start as int, i + 1) + r1[0]);
                assert(split_on(t, sep).drop_first() =~= r1.drop_first());
            }
        }
        i = i + 1;
    }
    proof {
        assert(s@.skip(len as int) =~= Seq::<char>::empty());
        assert(split_on(Seq::<char>::empty(), sep) =~= seq![Seq::<char>::empty()]);
        assert(s@.subrange(field_start as int, len as int) + Seq::<char>::empty()
            =~= s@.subrange(field_start as int, len as int));
    }
    if count == index {
        let f = s.substring_char(field_start, len);
        let r = String::from_str(f);
        Some(r)
    } else {
        None
    }
}

} // verus!
