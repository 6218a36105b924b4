//! Separator-based framing for the persisted files: joining records with a
//! separator character and splitting them back, with a proved round trip for
//! records that do not contain the separator.

use vstd::prelude::*;

verus! {

/// The character `c` does not occur in `s`.
pub open spec fn no_char(s: Seq<char>, c: char) -> bool {
    forall|i: int| 0 <= i < s.len() ==> s[i] != c
}

/// The parts joined into one sequence with `sep` between consecutive parts.
pub open spec fn join(parts: Seq<Seq<char>>, sep: char) -> Seq<char>
    decreases parts.len(),
{
    if parts.len() == 0 {
        Seq::<char>::empty()
    } else if parts.len() == 1 {
        parts[0]
    } else {
        parts[0] + seq![sep] + join(parts.skip(1), sep)
    }
}

/// The maximal split of `s` at every occurrence of `sep`; always at least
/// one (possibly empty) part.
pub open spec fn split(s: Seq<char>, sep: char) -> Seq<Seq<char>>
    decreases s.len(),
{
    if s.len() == 0 {
        seq![s]
    } else if s[0] == sep {
        seq![Seq::<char>::empty()] + split(s.skip(1), sep)
    } else {
        let rest = split(s.skip(1), sep);
        seq![seq![s[0]] + rest[0]] + rest.skip(1)
    }
}

pub proof fn lemma_split_nonempty(s: Seq<char>, sep: char)
    ensures
        split(s, sep).len() >= 1,
    decreases s.len(),
{
    if s.len() != 0 {
        lemma_split_nonempty(s.skip(1), sep);
    }
}

/// Splitting a sequence free of the separator yields that sequence alone.
pub proof fn lemma_split_no_sep(s: Seq<char>, sep: char)
    requires
        no_char(s, sep),
    ensures
        split(s, sep) == seq![s],
    decreases s.len(),
{
    if s.len() == 0 {
        assert(split(s, sep) =~= seq![s]);
    } else {
        assert(s[0] != sep);
        assert(no_char(s.skip(1), sep)) by {
            assert(forall|i: int|
                0 <= i < s.skip(1).len() ==> s.skip(1)[i] == s[i + 1]);
        }
        lemma_split_no_sep(s.skip(1), sep);
        assert(seq![s[0]] + s.skip(1) =~= s);
        assert(split(s, sep) =~= seq![s]);
    }
}

/// Splitting `a + sep + t` peels off `a` as the first part when `a` is free
/// of the separator.
pub proof fn lemma_split_sep_prefix(a: Seq<char>, t: Seq<char>, sep: char)
    requires
        no_char(a, sep),
    ensures
        split(a + seq![sep] + t, sep) == seq![a] + split(t, sep),
    decreases a.len(),
{
    let s = a + seq![sep] + t;
    if a.len() == 0 {
        assert(s[0] == sep);
        assert(s.skip(1) =~= t);
        assert(a =~= Seq::<char>::empty());
        assert(split(s, sep) == seq![Seq::<char>::empty()] + split(s.skip(1), sep));
        assert(split(s, sep) =~= seq![a] + split(t, sep));
    } else {
        assert(s[0] == a[0]);
        assert(a[0] != sep);
        assert(no_char(a.skip(1), sep)) by {
            assert(forall|i: int|
                0 <= i < a.skip(1).len() ==> a.skip(1)[i] == a[i + 1]);
        }
        lemma_split_sep_prefix(a.skip(1), t, sep);
        assert(s.skip(1) =~= a.skip(1) + seq![sep] + t);
        let rest = split(s.skip(1), sep);
        assert(rest == seq![a.skip(1)] + split(t, sep));
        assert(rest[0] == a.skip(1));
        assert(seq![s[0]] + rest[0] =~= a);
        assert(rest.skip(1) =~= split(t, sep));
        assert(split(s, sep) =~= seq![a] + split(t, sep));
    }
}

/// Round trip: splitting a join of separator-free parts restores the parts.
pub proof fn lemma_split_join(parts: Seq<Seq<char>>, sep: char)
    requires
        parts.len() >= 1,
        forall|i: int| 0 <= i < parts.len() ==> no_char(#[trigger] parts[i], sep),
    ensures
        split(join(parts, sep), sep) == parts,
    decreases parts.len(),
{
    if parts.len() == 1 {
        lemma_split_no_sep(parts[0], sep);
        assert(split(join(parts, sep), sep) =~= parts);
    } else {
        assert(forall|i: int|
            0 <= i < parts.skip(1).len() ==> no_char(#[trigger] parts.skip(1)[i], sep));
        lemma_split_join(parts.skip(1), sep);
        lemma_split_sep_prefix(parts[0], join(parts.skip(1), sep), sep);
        assert(split(join(parts, sep), sep) =~= parts);
    }
}

/// Appending one more part extends the join by a separator and the part.
pub proof fn lemma_join_push(parts: Seq<Seq<char>>, p: Seq<char>, sep: char)
    requires
        parts.len() >= 1,
    ensures
        join(parts.push(p), sep) == join(parts, sep) + seq![sep] + p,
    decreases parts.len(),
{
    if parts.len() == 1 {
        assert(parts.push(p).skip(1) =~= seq![p]);
        assert(join(seq![p], sep) == p);
        assert(join(parts.push(p), sep)
            == parts.push(p)[0] + seq![sep] + join(parts.push(p).skip(1), sep));
        assert(join(parts, sep) == parts[0]);
        assert(join(parts.push(p), sep) =~= parts[0] + seq![sep] + p);
    } else {
        lemma_join_push(parts.skip(1), p, sep);
        assert(parts.push(p).skip(1) =~= parts.skip(1).push(p));
        assert(join(parts.push(p), sep)
            =~= parts[0] + seq![sep] + join(parts.skip(1).push(p), sep));
        assert(join(parts, sep) + seq![sep] + p
            =~= parts[0] + seq![sep] + (join(parts.skip(1), sep) + seq![sep] + p));
    }
}

/// The parts joined with the one-character separator `sep`.
pub fn join_with(parts: &Vec<String>, sep: &str) -> (r: String)
    requires
        sep@.len() == 1,
    ensures
        r@ == join(parts.deep_view(), sep@[0]),
{
    let ghost sc = sep@[0];
    let mut r = String::new();
    let mut i: usize = 0;
    while i < parts.len()
        invariant
            i <= parts.len(),
            sep@.len() == 1,
            sc == sep@[0],
            r@ == join(parts.deep_view().take(i as int), sc),
        decreases parts.len() - i,
    {
        proof {
            assert(parts.deep_view()[i as int] == parts[i as int]@);
        }
        if i > 0 {
            r.append(sep);
            proof {
                assert(parts.deep_view().take(i as int).len() == i);
            }
        }
        r.append(parts[i].as_str());
        proof {
            let dv = parts.deep_view();
            if i == 0 {
                assert(dv.take(1) =~= seq![dv[0]]);
                assert(r@ =~= join(dv.take(1), sc));
            } else {
                lemma_join_push(dv.take(i as int), dv[i as int], sc);
                assert(dv.take(i + 1) =~= dv.take(i as int).push(dv[i as int]));
                assert(r@ =~= join(dv.take(i + 1), sc));
            }
        }
        i = i + 1;
    }
    proof {
        assert(parts.deep_view().take(parts.len() as int) =~= parts.deep_view());
    }
    r
}

/// The parts of `s` delimited by `sep`, as `split` describes them.
pub fn split_str(s: &str, sep: char) -> (r: Vec<String>)
    ensures
        r.deep_view() == split(s@, sep),
        r@.len() >= 1,
{
    let len = s.unicode_len();
    let mut parts: Vec<String> = Vec::new();
    let mut start: usize = 0;
    let mut i: usize = 0;
    proof {
        assert(s@.skip(0) =~= s@);
        assert(parts.deep_view() =~= Seq::<Seq<char>>::empty());
    }
    while i < len
        invariant
            start <= i <= len,
            len == s@.len(),
            no_char(s@.subrange(start as int, i as int), sep),
            split(s@, sep) =~= parts.deep_view() + split(s@.skip(start as int), sep),
        decreases len - i,
    {
        if s.get_char(i) == sep {
            let part = s.substring_char(start, i).to_owned();
            let ghost old_dv = parts.deep_view();
            parts.push(part);
            proof {
                let a = s@.subrange(start as int, i as int);
                let t = s@.skip(i + 1);
                lemma_split_sep_prefix(a, t, sep);
                assert(s@.skip(start as int) =~= a + seq![sep] + t);
                assert(parts.deep_view() =~= old_dv.push(a));
                assert(old_dv.push(a) + split(t, sep) =~= old_dv + (seq![a] + split(t, sep)));
            }
            start = i + 1;
            proof {
                assert(s@.subrange(start as int, start as int) =~= Seq::<char>::empty());
            }
        } else {
            proof {
                let a = s@.subrange(start as int, i as int);
                let b = s@.subrange(start as int, i + 1);
                assert(b =~= a.push(s@[i as int]));
            }
        }
        i = i + 1;
    }
    let last = s.substring_char(start, len).to_owned();
    let ghost old_dv = parts.deep_view();
    parts.push(last);
    proof {
        let a = s@.subrange(start as int, len as int);
        assert(s@.skip(start as int) =~= a);
        lemma_split_no_sep(a, sep);
        assert(parts.deep_view() =~= old_dv.push(a));
        assert(old_dv.push(a) =~= old_dv + seq![a]);
        assert(parts.deep_view() =~= split(s@, sep));
    }
    parts
}

} // verus!
