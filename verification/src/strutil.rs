//! Character-sequence utilities: splitting on a separator, joining with a
//! separator, prefix and substring tests.  Splitting a joined sequence is
//! proved to give the parts back when no part contains the separator
//! (`lemma_split_join`), which is what the tag and property codecs rest on.

use vstd::prelude::*;

verus! {

/// Index of the first occurrence of `sep` in `s`, or -1.
pub open spec fn first_index_of(s: Seq<char>, sep: char) -> int
    decreases s.len(),
{
    if s.len() == 0 {
        -1
    } else if s[0] == sep {
        0
    } else {
        let rest = first_index_of(s.skip(1), sep);
        if rest < 0 {
            -1
        } else {
            rest + 1
        }
    }
}

pub proof fn lemma_first_index_of(s: Seq<char>, sep: char)
    ensures
        first_index_of(s, sep) < 0 ==> !s.contains(sep),
        first_index_of(s, sep) >= 0 ==> {
            let i = first_index_of(s, sep);
            &&& i < s.len()
            &&& s[i] == sep
            &&& forall|k: int| 0 <= k < i ==> s[k] != sep
        },
    decreases s.len(),
{
    if s.len() > 0 && s[0] != sep {
        lemma_first_index_of(s.skip(1), sep);
        let rest = first_index_of(s.skip(1), sep);
        if rest < 0 {
            assert forall|k: int| 0 <= k < s.len() implies s[k] != sep by {
                if k > 0 {
                    assert(s.skip(1)[k - 1] == s[k]);
                    assert(!s.skip(1).contains(sep));
                }
            }
        } else {
            assert(s[rest + 1] == s.skip(1)[rest]);
            assert forall|k: int| 0 <= k < rest + 1 implies s[k] != sep by {
                if k > 0 {
                    assert(s.skip(1)[k - 1] == s[k]);
                }
            }
        }
    } else if s.len() == 0 {
        assert(!s.contains(sep));
    }
}

/// Where a separator is known to sit at `i` with none before it, it is the
/// first one.
pub proof fn lemma_first_index_at(s: Seq<char>, sep: char, i: int)
    requires
        0 <= i < s.len(),
        s[i] == sep,
        forall|k: int| 0 <= k < i ==> s[k] != sep,
    ensures
        first_index_of(s, sep) == i,
    decreases i,
{
    if i > 0 {
        assert forall|k: int| 0 <= k < i - 1 implies s.skip(1)[k] != sep by {
            assert(s.skip(1)[k] == s[k + 1]);
        }
        assert(s.skip(1)[i - 1] == s[i]);
        lemma_first_index_at(s.skip(1), sep, i - 1);
    }
}

pub proof fn lemma_first_index_none(s: Seq<char>, sep: char)
    requires
        forall|k: int| 0 <= k < s.len() ==> s[k] != sep,
    ensures
        first_index_of(s, sep) < 0,
    decreases s.len(),
{
    if s.len() > 0 {
        assert forall|k: int| 0 <= k < s.skip(1).len() implies s.skip(1)[k] != sep by {
            assert(s.skip(1)[k] == s[k + 1]);
        }
        lemma_first_index_none(s.skip(1), sep);
    }
}

/// The pieces of `s` between occurrences of `sep`.  Never empty; `n`
/// separators give `n + 1` pieces.
pub open spec fn split_on(s: Seq<char>, sep: char) -> Seq<Seq<char>>
    decreases s.len(),
{
    let i = first_index_of(s, sep);
    if i < 0 {
        seq![s]
    } else if i < s.len() {
        seq![s.take(i)] + split_on(s.skip(i + 1), sep)
    } else {
        // Unreachable: the first index is always inside the sequence.
        seq![s]
    }
}

/// The pieces joined back together, with `sep` between neighbours.
pub open spec fn join_with(parts: Seq<Seq<char>>, sep: char) -> Seq<char>
    decreases parts.len(),
{
    if parts.len() == 0 {
        Seq::empty()
    } else if parts.len() == 1 {
        parts[0]
    } else {
        parts[0] + seq![sep] + join_with(parts.skip(1), sep)
    }
}

pub open spec fn no_char(s: Seq<char>, sep: char) -> bool {
    forall|k: int| 0 <= k < s.len() ==> s[k] != sep
}

pub open spec fn parts_without(parts: Seq<Seq<char>>, sep: char) -> bool {
    forall|i: int| 0 <= i < parts.len() ==> no_char(#[trigger] parts[i], sep)
}

/// Every piece a split produces is free of the separator.
pub proof fn lemma_split_pieces_clean(s: Seq<char>, sep: char)
    ensures
        split_on(s, sep).len() >= 1,
        parts_without(split_on(s, sep), sep),
    decreases s.len(),
{
    lemma_first_index_of(s, sep);
    let i = first_index_of(s, sep);
    if i < 0 {
        assert forall|k: int| 0 <= k < s.len() implies s[k] != sep by {
            assert(!s.contains(sep));
        }
        assert(no_char(split_on(s, sep)[0], sep));
    } else {
        lemma_split_pieces_clean(s.skip(i + 1), sep);
        let head = s.take(i);
        assert(no_char(head, sep));
        let rest = split_on(s.skip(i + 1), sep);
        assert forall|j: int| 0 <= j < split_on(s, sep).len() implies no_char(
            #[trigger] split_on(s, sep)[j],
            sep,
        ) by {
            if j > 0 {
                assert(split_on(s, sep)[j] == rest[j - 1]);
            }
        }
    }
}

/// Splitting what `join_with` built gives the parts back, provided no part
/// contains the separator.
pub proof fn lemma_split_join(parts: Seq<Seq<char>>, sep: char)
    requires
        parts.len() >= 1,
        parts_without(parts, sep),
    ensures
        split_on(join_with(parts, sep), sep) == parts,
    decreases parts.len(),
{
    let joined = join_with(parts, sep);
    if parts.len() == 1 {
        lemma_first_index_none(joined, sep);
        assert(split_on(joined, sep) =~= parts);
    } else {
        let head = parts[0];
        let tail_join = join_with(parts.skip(1), sep);
        assert(joined == head + seq![sep] + tail_join);
        assert(joined[head.len() as int] == sep);
        assert forall|k: int| 0 <= k < head.len() implies joined[k] != sep by {
            assert(joined[k] == head[k]);
        }
        lemma_first_index_at(joined, sep, head.len() as int);
        assert(joined.take(head.len() as int) =~= head);
        assert(joined.skip(head.len() as int + 1) =~= tail_join);
        assert forall|i: int| 0 <= i < parts.skip(1).len() implies no_char(
            #[trigger] parts.skip(1)[i],
            sep,
        ) by {
            assert(parts.skip(1)[i] == parts[i + 1]);
        }
        lemma_split_join(parts.skip(1), sep);
        assert(split_on(joined, sep) =~= seq![head] + split_on(tail_join, sep));
        assert(split_on(joined, sep) =~= parts);
    }
}

/// A join of two or more parts is never empty.
pub proof fn lemma_join_len(parts: Seq<Seq<char>>, sep: char)
    requires
        parts.len() >= 2,
    ensures
        join_with(parts, sep).len() >= 1,
{
}

/// Adding one part to a join.
pub proof fn lemma_join_push(parts: Seq<Seq<char>>, sep: char, x: Seq<char>)
    ensures
        join_with(parts.push(x), sep) == if parts.len() == 0 {
            x
        } else {
            join_with(parts, sep) + seq![sep] + x
        },
    decreases parts.len(),
{
    if parts.len() == 0 {
        assert(parts.push(x)[0] == x);
        assert(join_with(parts.push(x), sep) == x);
    } else if parts.len() == 1 {
        assert(parts.push(x).skip(1) =~= seq![x]);
        assert(parts.push(x)[0] == parts[0]);
        assert(join_with(seq![x], sep) == x);
        assert(join_with(parts.push(x), sep) == parts[0] + seq![sep] + x);
    } else {
        assert(parts.push(x).skip(1) =~= parts.skip(1).push(x));
        lemma_join_push(parts.skip(1), sep, x);
        assert(join_with(parts.push(x), sep) == parts[0] + seq![sep] + join_with(
            parts.skip(1).push(x),
            sep,
        ));
        assert(join_with(parts, sep) + seq![sep] + x =~= parts[0] + seq![sep] + (join_with(
            parts.skip(1),
            sep,
        ) + seq![sep] + x));
    }
}


/// A character absent from the split input is absent from every piece.
pub proof fn lemma_split_pieces_preserve(s: Seq<char>, sep: char, c: char)
    requires
        no_char(s, c),
    ensures
        forall|i: int|
            0 <= i < split_on(s, sep).len() ==> no_char(#[trigger] split_on(s, sep)[i], c),
    decreases s.len(),
{
    lemma_first_index_of(s, sep);
    let i = first_index_of(s, sep);
    if i < 0 {
        assert(no_char(split_on(s, sep)[0], c));
    } else {
        let head = s.take(i);
        let tail = s.skip(i + 1);
        assert forall|k: int| 0 <= k < head.len() implies head[k] != c by {
            assert(head[k] == s[k]);
        }
        assert forall|k: int| 0 <= k < tail.len() implies tail[k] != c by {
            assert(tail[k] == s[k + i + 1]);
        }
        lemma_split_pieces_preserve(tail, sep, c);
        let rest = split_on(tail, sep);
        assert forall|j: int| 0 <= j < split_on(s, sep).len() implies no_char(
            #[trigger] split_on(s, sep)[j],
            c,
        ) by {
            if j > 0 {
                assert(split_on(s, sep)[j] == rest[j - 1]);
            }
        }
    }
}

/// A character absent from every part and different from the separator
/// is absent from the join.
pub proof fn lemma_join_no_char(parts: Seq<Seq<char>>, sep: char, c: char)
    requires
        forall|i: int| 0 <= i < parts.len() ==> no_char(#[trigger] parts[i], c),
        sep != c,
    ensures
        no_char(join_with(parts, sep), c),
    decreases parts.len(),
{
    if parts.len() >= 2 {
        let tail = parts.skip(1);
        assert forall|i: int| 0 <= i < tail.len() implies no_char(#[trigger] tail[i], c) by {
            assert(tail[i] == parts[i + 1]);
        }
        lemma_join_no_char(tail, sep, c);
        let joined = join_with(parts, sep);
        assert forall|k: int| 0 <= k < joined.len() implies joined[k] != c by {
            if k < parts[0].len() {
                assert(joined[k] == parts[0][k]);
            } else if k == parts[0].len() {
                assert(joined[k] == sep);
            } else {
                assert(joined[k] == join_with(tail, sep)[k - parts[0].len() - 1]);
            }
        }
    }
}

/// First index of `sep` in `s` at or after `from`, if any.
pub fn scan_for(s: &Vec<char>, sep: char, from: usize) -> (r: Option<usize>)
    requires
        from <= s@.len(),
    ensures
        match r {
            Some(j) => from <= j < s@.len() && s@[j as int] == sep && forall|k: int|
                from <= k < j ==> s@[k] != sep,
            None => forall|k: int| from <= k < s@.len() ==> s@[k] != sep,
        },
{
    let mut j = from;
    while j < s.len()
        invariant
            from <= j <= s@.len(),
            forall|k: int| from <= k < j ==> s@[k] != sep,
        decreases s@.len() - j,
    {
        if s[j] == sep {
            return Some(j);
        }
        j = j + 1;
    }
    None
}

/// Splits `s` at every occurrence of `sep`.
pub fn split_chars(s: &Vec<char>, sep: char) -> (r: Vec<Vec<char>>)
    ensures
        r.deep_view() == split_on(s@, sep),
{
    let mut parts: Vec<Vec<char>> = Vec::new();
    let mut rest: usize = 0;
    proof {
        assert(s@.skip(0) =~= s@);
        assert(parts.deep_view() =~~= Seq::<Seq<char>>::empty());
        assert(parts.deep_view() + split_on(s@, sep) =~= split_on(s@, sep));
    }
    loop
        invariant
            rest <= s@.len(),
            split_on(s@, sep) == parts.deep_view() + split_on(s@.skip(rest as int), sep),
        ensures
            parts.deep_view() == split_on(s@, sep),
        decreases s@.len() - rest,
    {
        let ghost pre = parts.deep_view();
        let ghost tail = s@.skip(rest as int);
        match scan_for(s, sep, rest) {
            None => {
                let mut piece: Vec<char> = Vec::new();
                let mut k = rest;
                while k < s.len()
                    invariant
                        rest <= k <= s@.len(),
                        piece@ =~= s@.subrange(rest as int, k as int),
                    decreases s@.len() - k,
                {
                    piece.push(s[k]);
                    k = k + 1;
                }
                proof {
                    assert(piece@ =~= tail);
                    assert forall|k2: int| 0 <= k2 < tail.len() implies tail[k2] != sep by {
                        assert(tail[k2] == s@[rest + k2]);
                    }
                    lemma_first_index_none(tail, sep);
                    assert(split_on(tail, sep) =~= seq![tail]);
                }
                parts.push(piece);
                proof {
                    assert(parts.deep_view() =~~= pre + seq![tail]);
                    assert(parts.deep_view() =~= split_on(s@, sep));
                }
                return parts;
            },
            Some(j) => {
                let mut piece: Vec<char> = Vec::new();
                let mut k = rest;
                while k < j
                    invariant
                        rest <= k <= j,
                        j < s@.len(),
                        piece@ =~= s@.subrange(rest as int, k as int),
                    decreases j - k,
                {
                    piece.push(s[k]);
                    k = k + 1;
                }
                proof {
                    let i = j - rest;
                    assert(tail[i] == s@[j as int]);
                    assert forall|k2: int| 0 <= k2 < i implies tail[k2] != sep by {
                        assert(tail[k2] == s@[rest + k2]);
                    }
                    lemma_first_index_at(tail, sep, i);
                    assert(piece@ =~= tail.take(i));
                    assert(tail.skip(i + 1) =~= s@.skip(j + 1));
                    assert(split_on(tail, sep) == seq![tail.take(i)] + split_on(
                        s@.skip(j + 1),
                        sep,
                    ));
                }
                parts.push(piece);
                proof {
                    assert(parts.deep_view() =~~= pre.push(tail.take(j - rest)));
                    assert(pre + split_on(tail, sep) =~= parts.deep_view() + split_on(
                        s@.skip(j + 1),
                        sep,
                    ));
                }
                proof {
                    assert(j < s.len());
                }
                rest = j + 1;
            },
        }
    }
}

/// Joins `parts` with `sep` between neighbours.
pub fn join_chars(parts: &Vec<Vec<char>>, sep: char) -> (r: Vec<char>)
    ensures
        r@ == join_with(parts.deep_view(), sep),
{
    let mut r: Vec<char> = Vec::new();
    let mut i: usize = 0;
    while i < parts.len()
        invariant
            i <= parts@.len(),
            r@ == join_with(parts.deep_view().take(i as int), sep),
        decreases parts@.len() - i,
    {
        let ghost pre = r@;
        if i > 0 {
            r.push(sep);
        }
        let part = &parts[i];
        let mut k: usize = 0;
        while k < part.len()
            invariant
                k <= part@.len(),
                i < parts@.len(),
                part == parts@[i as int],
                r@ =~= (if i > 0 {
                    pre.push(sep)
                } else {
                    pre
                }) + part@.take(k as int),
            decreases part@.len() - k,
        {
            r.push(part[k]);
            k = k + 1;
        }
        proof {
            let dv = parts.deep_view();
            assert(dv.take(i + 1) =~= dv.take(i as int).push(dv[i as int]));
            lemma_join_push(dv.take(i as int), sep, dv[i as int]);
            assert(part@ == dv[i as int]);
            assert(part@.take(part@.len() as int) =~= part@);
            if i > 0 {
                assert(r@ =~= join_with(dv.take(i as int), sep) + seq![sep] + dv[i as int]);
            } else {
                assert(dv.take(0int) =~= Seq::<Seq<char>>::empty());
                assert(r@ =~= dv[0]);
            }
        }
        i = i + 1;
    }
    proof {
        assert(parts.deep_view().take(parts@.len() as int) =~= parts.deep_view());
    }
    r
}

/// Does `s` begin with `prefix`?
pub open spec fn begins_with(s: Seq<char>, prefix: Seq<char>) -> bool {
    prefix.len() <= s.len() && s.take(prefix.len() as int) == prefix
}

/// Does `needle` occur in `s` as a contiguous run?
pub open spec fn has_substring(s: Seq<char>, needle: Seq<char>) -> bool {
    exists|i: int|
        0 <= i <= s.len() - needle.len() && #[trigger] s.subrange(i, i + needle.len()) == needle
}

pub fn eq_chars(a: &Vec<char>, b: &Vec<char>) -> (r: bool)
    ensures
        r == (a@ == b@),
{
    if a.len() != b.len() {
        return false;
    }
    let mut i: usize = 0;
    while i < a.len()
        invariant
            a@.len() == b@.len(),
            i <= a@.len(),
            forall|k: int| 0 <= k < i ==> a@[k] == b@[k],
        decreases a@.len() - i,
    {
        if a[i] != b[i] {
            return false;
        }
        i = i + 1;
    }
    proof {
        assert(a@ =~= b@);
    }
    true
}

pub fn begins_with_chars(s: &Vec<char>, prefix: &Vec<char>) -> (r: bool)
    ensures
        r == begins_with(s@, prefix@),
{
    if prefix.len() > s.len() {
        return false;
    }
    let mut i: usize = 0;
    while i < prefix.len()
        invariant
            prefix@.len() <= s@.len(),
            i <= prefix@.len(),
            forall|k: int| 0 <= k < i ==> s@[k] == prefix@[k],
        decreases prefix@.len() - i,
    {
        if s[i] != prefix[i] {
            proof {
                assert(s@.take(prefix@.len() as int)[i as int] != prefix@[i as int]);
            }
            return false;
        }
        i = i + 1;
    }
    proof {
        assert(s@.take(prefix@.len() as int) =~= prefix@);
    }
    true
}

/// Does `needle` occur anywhere in `s`?
pub fn contains_chars(s: &Vec<char>, needle: &Vec<char>) -> (r: bool)
    ensures
        r == has_substring(s@, needle@),
{
    if needle.len() > s.len() {
        return false;
    }
    let mut start: usize = 0;
    while start <= s.len() - needle.len()
        invariant
            needle@.len() <= s@.len(),
            start <= s@.len() - needle@.len() + 1,
            forall|i: int|
                0 <= i < start ==> #[trigger] s@.subrange(i, i + needle@.len()) != needle@,
        decreases s@.len() - needle@.len() - start + 1,
    {
        let mut k: usize = 0;
        let mut matches = true;
        while k < needle.len()
            invariant
                needle@.len() <= s@.len(),
                start <= s@.len() - needle@.len(),
                k <= needle@.len(),
                matches == (forall|k2: int|
                    0 <= k2 < k ==> s@[start + k2] == needle@[k2]),
            decreases needle@.len() - k,
        {
            proof {
                assert(start + k < s.len());
            }
            if s[start + k] != needle[k] {
                matches = false;
                k = needle.len();
            } else {
                k = k + 1;
            }
        }
        if matches {
            proof {
                assert(s@.subrange(start as int, start + needle@.len()) =~= needle@);
            }
            return true;
        }
        proof {
            if s@.subrange(start as int, start + needle@.len()) == needle@ {
                assert(forall|k2: int|
                    0 <= k2 < needle@.len() ==> s@[start + k2] == #[trigger] needle@[k2]);
            }
        }
        start = start + 1;
    }
    false
}


/// Does `v` hold a string with exactly this text?
pub fn contains_string(v: &Vec<String>, s: &String) -> (r: bool)
    ensures
        r == v.deep_view().contains(s@),
{
    let mut j: usize = 0;
    while j < v.len()
        invariant
            j <= v@.len(),
            forall|k: int| 0 <= k < j ==> v.deep_view()[k] != s@,
        decreases v@.len() - j,
    {
        if v[j].eq(s) {
            proof {
                assert(v.deep_view()[j as int] == s@);
            }
            return true;
        }
        j = j + 1;
    }
    proof {
        if v.deep_view().contains(s@) {
            let w = choose|w: int| 0 <= w < v.deep_view().len() && v.deep_view()[w] == s@;
        }
    }
    false
}

} // verus!
