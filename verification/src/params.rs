//! Parameter lists: `key=value` entries with `;` between them.

use vstd::prelude::*;

verus! {

/// The place of the first `c` in `s`, or the length of `s` where there is none.
pub open spec fn find(s: Seq<char>, c: char) -> int
    decreases s.len(),
{
    if s.len() == 0 || s[0] == c {
        0
    } else {
        1 + find(s.skip(1), c)
    }
}

/// The key of an entry: what stands before the first `=`.
pub open spec fn key_of(entry: Seq<char>) -> Seq<char> {
    entry.take(find(entry, '='))
}

/// The value of an entry: what stands behind the first `=`, if there is one.
pub open spec fn value_of(entry: Seq<char>) -> Seq<char> {
    if find(entry, '=') < entry.len() {
        entry.skip(find(entry, '=') + 1)
    } else {
        Seq::empty()
    }
}

/// The value of the first entry of `s` whose key is `k`. Empty entries do not count.
pub open spec fn param(s: Seq<char>, k: Seq<char>) -> Option<Seq<char>>
    decreases s.len(),
{
    let end = find(s, ';');
    let entry = s.take(end);
    if entry.len() > 0 && key_of(entry) == k {
        Some(value_of(entry))
    } else if 0 <= end < s.len() {
        param(s.skip(end + 1), k)
    } else {
        None
    }
}

/// The text of one entry. Where there is no value there is no `=` either.
pub open spec fn entry_text(k: Seq<char>, v: Seq<char>) -> Seq<char> {
    if v.len() == 0 {
        k
    } else {
        k + seq!['='] + v
    }
}

/// Two lists in one.
pub open spec fn glued(a: Seq<char>, b: Seq<char>) -> Seq<char> {
    if a.len() == 0 {
        b
    } else if b.len() == 0 {
        a
    } else {
        a + seq![';'] + b
    }
}

/// The list of the given keys and values, in order. Entries without a key are left out.
pub open spec fn params(ps: Seq<(Seq<char>, Seq<char>)>) -> Seq<char>
    decreases ps.len(),
{
    if ps.len() == 0 {
        Seq::empty()
    } else if ps[0].0.len() == 0 {
        params(ps.skip(1))
    } else {
        glued(entry_text(ps[0].0, ps[0].1), params(ps.skip(1)))
    }
}

/// The value of the first pair whose key is `k`.
pub open spec fn first_value(ps: Seq<(Seq<char>, Seq<char>)>, k: Seq<char>) -> Option<Seq<char>>
    decreases ps.len(),
{
    if ps.len() == 0 {
        None
    } else if ps[0].0 == k {
        Some(ps[0].1)
    } else {
        first_value(ps.skip(1), k)
    }
}

/// The pairs can be told apart again once they are in a list: every key is there and free of
/// separators, every value is free of entry separators.
pub open spec fn separable(ps: Seq<(Seq<char>, Seq<char>)>) -> bool {
    forall|i: int|
        0 <= i < ps.len() ==> (#[trigger] ps[i]).0.len() > 0 && !ps[i].0.contains(';')
            && !ps[i].0.contains('=') && !ps[i].1.contains(';')
}

/// What `find` finds.
pub proof fn lemma_find(s: Seq<char>, c: char)
    ensures
        0 <= find(s, c) <= s.len(),
        forall|j: int| 0 <= j < find(s, c) ==> #[trigger] s[j] != c,
        find(s, c) < s.len() ==> s[find(s, c)] == c,
    decreases s.len(),
{
    if s.len() > 0 && s[0] != c {
        lemma_find(s.skip(1), c);
        assert forall|j: int| 0 <= j < find(s, c) implies #[trigger] s[j] != c by {
            if j > 0 {
                assert(s.skip(1)[j - 1] == s[j]);
            }
        }
    }
}

/// Only one place is the first.
proof fn lemma_find_is(s: Seq<char>, c: char, i: int)
    requires
        0 <= i <= s.len(),
        forall|j: int| 0 <= j < i ==> #[trigger] s[j] != c,
        i < s.len() ==> s[i] == c,
    ensures
        find(s, c) == i,
{
    lemma_find(s, c);
    if find(s, c) < i {
        assert(s[find(s, c)] != c);
    }
}

/// What was put into a list is found there: each key with the value of its first pair, and no
/// other key.
pub proof fn law_params_are_found(ps: Seq<(Seq<char>, Seq<char>)>, k: Seq<char>)
    requires
        separable(ps),
    ensures
        param(params(ps), k) == first_value(ps, k),
    decreases ps.len(),
{
    if ps.len() == 0 {
        assert(params(ps).take(0) =~= Seq::<char>::empty());
    } else {
        let (key, value) = ps[0];
        let rest = ps.skip(1);
        let entry = entry_text(key, value);
        let tail = params(rest);
        let s = params(ps);
        assert(separable(rest)) by {
            assert forall|i: int| 0 <= i < rest.len() implies (#[trigger] rest[i]).0.len() > 0
                && !rest[i].0.contains(';') && !rest[i].0.contains('=') && !rest[i].1.contains(
                ';',
            ) by {
                assert(rest[i] == ps[i + 1]);
            }
        }
        law_params_are_found(rest, k);
        assert forall|j: int| 0 <= j < entry.len() implies #[trigger] entry[j] != ';' by {
            if j < key.len() {
                assert(entry[j] == key[j]);
            } else if j > key.len() {
                assert(entry[j] == value[j - key.len() - 1]);
            }
        }
        assert(s.take(entry.len() as int) =~= entry);
        assert forall|j: int| 0 <= j < entry.len() implies #[trigger] s[j] != ';' by {
            assert(s[j] == entry[j]);
        }
        lemma_find_is(s, ';', entry.len() as int);
        assert forall|j: int| 0 <= j < key.len() implies #[trigger] entry[j] != '=' by {
            assert(entry[j] == key[j]);
        }
        lemma_find_is(entry, '=', key.len() as int);
        assert(key_of(entry) =~= key);
        assert(value_of(entry) =~= value);
        if key != k {
            if tail.len() > 0 {
                assert(s.skip(entry.len() as int + 1) =~= tail);
            } else {
                if rest.len() > 0 {
                    assert(rest[0].0.len() > 0);
                }
                assert(rest.len() == 0);
            }
        }
    }
}

/// The characters of a text.
fn chars_of(s: &str) -> (v: Vec<char>)
    ensures
        v@ == s@,
{
    let mut v: Vec<char> = Vec::new();
    let n = s.unicode_len();
    for i in 0..n
        invariant
            n == s@.len(),
            v@ == s@.take(i as int),
    {
        v.push(s.get_char(i));
        proof {
            assert(s@.take(i + 1) =~= s@.take(i as int).push(s@[i as int]));
        }
    }
    proof {
        assert(s@.take(n as int) =~= s@);
    }
    v
}

/// The place of the first `c` in `v` between `from` and `to`, or `to`.
fn find_in(v: &Vec<char>, from: usize, to: usize, c: char) -> (i: usize)
    requires
        from <= to <= v.len(),
    ensures
        from <= i <= to,
        i == from + find(v@.subrange(from as int, to as int), c),
{
    let ghost s = v@.subrange(from as int, to as int);
    for i in from..to
        invariant
            from <= to <= v.len(),
            s == v@.subrange(from as int, to as int),
            forall|j: int| 0 <= j < i - from ==> #[trigger] s[j] != c,
    {
        if v[i] == c {
            proof {
                lemma_find_is(s, c, i - from);
            }
            return i;
        }
    }
    proof {
        lemma_find_is(s, c, to - from);
    }
    to
}

/// Whether `v` between `from` and `to` reads `k`.
fn reads(v: &Vec<char>, from: usize, to: usize, k: &Vec<char>) -> (r: bool)
    requires
        from <= to <= v.len(),
    ensures
        r == (v@.subrange(from as int, to as int) == k@),
{
    let ghost s = v@.subrange(from as int, to as int);
    if to - from != k.len() {
        return false;
    }
    for i in 0..k.len()
        invariant
            from <= to <= v.len(),
            to - from == k.len(),
            s == v@.subrange(from as int, to as int),
            forall|j: int| 0 <= j < i ==> s[j] == #[trigger] k@[j],
    {
        if v[from + i] != k[i] {
            proof {
                assert(s[i as int] != k@[i as int]);
            }
            return false;
        }
    }
    proof {
        assert(s =~= k@);
    }
    true
}

/// The value of the first entry of the list `s` whose key is `k`.
pub fn get<'s>(s: &'s str, k: &str) -> (r: Option<&'s str>)
    ensures
        match r {
            Some(v) => param(s@, k@) == Some(v@),
            None => param(s@, k@) is None,
        },
{
    let chars = chars_of(s);
    let key = chars_of(k);
    let n = chars.len();
    let mut start: usize = 0;
    proof {
        assert(s@.skip(0) =~= s@);
    }
    loop
        invariant
            chars@ == s@,
            key@ == k@,
            n == chars.len(),
            start <= n,
            param(s@, k@) == param(s@.skip(start as int), k@),
        decreases n - start,
    {
        let ghost rest = s@.skip(start as int);
        let end = find_in(&chars, start, n, ';');
        let eq = find_in(&chars, start, end, '=');
        proof {
            assert(chars@.subrange(start as int, n as int) =~= rest);
            let entry = rest.take(end - start);
            assert(chars@.subrange(start as int, end as int) =~= entry);
            lemma_find(entry, '=');
            assert(chars@.subrange(start as int, eq as int) =~= key_of(entry));
        }
        if start < end && reads(&chars, start, eq, &key) {
            let from = if eq < end {
                eq + 1
            } else {
                end
            };
            proof {
                assert(s@.subrange(from as int, end as int) =~= value_of(rest.take(end - start)));
            }
            return Some(s.substring_char(from, end));
        }
        if end >= n {
            return None;
        }
        proof {
            assert(rest.skip(end - start + 1) =~= s@.skip(end + 1));
        }
        start = end + 1;
    }
}

/// The pairs as they are meant.
pub open spec fn texts(ps: Seq<(&str, &str)>) -> Seq<(Seq<char>, Seq<char>)> {
    ps.map_values(|p: (&str, &str)| (p.0@, p.1@))
}

/// The list of the given keys and values, in order.
pub fn from_iter(ps: &Vec<(&str, &str)>) -> (s: String)
    ensures
        s@ == params(texts(ps@)),
{
    let ghost all = texts(ps@);
    let mut s = String::new();
    proof {
        reveal_strlit(";");
        reveal_strlit("=");
        assert(all.skip(0) =~= all);
    }
    for i in 0..ps.len()
        invariant
            all == texts(ps@),
            params(all) == glued(s@, params(all.skip(i as int))),
            ";"@ == seq![';'],
            "="@ == seq!['='],
    {
        let (k, v) = ps[i];
        let ghost before = s@;
        let ghost rest = all.skip(i as int);
        proof {
            assert(rest[0] == (k@, v@));
            assert(rest.skip(1) =~= all.skip(i + 1));
        }
        if !k.is_empty() {
            if !s.as_str().is_empty() {
                s.append(";");
            }
            s.append(k);
            if !v.is_empty() {
                s.append("=");
                s.append(v);
            }
            proof {
                let entry = entry_text(k@, v@);
                let tail = params(all.skip(i + 1));
                assert(s@ =~= glued(before, entry));
                assert(glued(before, glued(entry, tail)) =~= glued(glued(before, entry), tail));
            }
        }
    }
    proof {
        assert(all.skip(ps.len() as int) =~= Seq::empty());
    }
    s
}

/// A list is read entry by entry: `k`, or `k=v`, up to the first `;`. The first entry that is not
/// empty and whose key is asked for gives its value, which is empty where there is no `=`; else
/// the rest of the list, if there is one, gives it.
pub proof fn law_lists_are_read_entry_by_entry(
    k: Seq<char>,
    v: Option<Seq<char>>,
    rest: Option<Seq<char>>,
    q: Seq<char>,
)
    requires
        !k.contains(';'),
        !k.contains('='),
        v is Some ==> !v->0.contains(';'),
    ensures
        ({
            let entry = match v {
                Some(v) => k + seq!['='] + v,
                None => k,
            };
            let s = match rest {
                Some(rest) => entry + seq![';'] + rest,
                None => entry,
            };
            param(s, q) == if q == k && (k.len() > 0 || v is Some) {
                Some(
                    match v {
                        Some(v) => v,
                        None => Seq::empty(),
                    },
                )
            } else {
                match rest {
                    Some(rest) => param(rest, q),
                    None => None,
                }
            }
        }),
{
    let entry = match v {
        Some(v) => k + seq!['='] + v,
        None => k,
    };
    let s = match rest {
        Some(rest) => entry + seq![';'] + rest,
        None => entry,
    };
    assert forall|j: int| 0 <= j < entry.len() implies #[trigger] entry[j] != ';' by {
        if j < k.len() {
            assert(entry[j] == k[j]);
            assert(k.contains(k[j]));
        } else if j > k.len() {
            assert(entry[j] == v->0[j - k.len() - 1]);
            assert(v->0.contains(v->0[j - k.len() - 1]));
        }
    }
    assert forall|j: int| 0 <= j < entry.len() implies #[trigger] s[j] != ';' by {
        assert(s[j] == entry[j]);
    }
    lemma_find_is(s, ';', entry.len() as int);
    assert(s.take(entry.len() as int) =~= entry);
    assert forall|j: int| 0 <= j < k.len() implies #[trigger] entry[j] != '=' by {
        assert(entry[j] == k[j]);
        assert(k.contains(k[j]));
    }
    lemma_find_is(entry, '=', k.len() as int);
    assert(key_of(entry) =~= k);
    match v {
        Some(v) => {
            assert(value_of(entry) =~= v);
        },
        None => {},
    }
    match rest {
        Some(rest) => {
            assert(s.skip(entry.len() as int + 1) =~= rest);
        },
        None => {},
    }
}

/// A list is written pair by pair: one without a key is left out, one without a value is its
/// key, any other is `k=v`; between two entries stands a `;`.
pub proof fn law_lists_are_written_pair_by_pair(
    k: Seq<char>,
    v: Seq<char>,
    rest: Seq<(Seq<char>, Seq<char>)>,
)
    ensures
        params(Seq::empty()).len() == 0,
        params(seq![(k, v)] + rest) == if k.len() == 0 {
            params(rest)
        } else {
            (if v.len() == 0 {
                k
            } else {
                k + seq!['='] + v
            }) + (if params(rest).len() == 0 {
                Seq::empty()
            } else {
                seq![';'] + params(rest)
            })
        },
{
    let all = seq![(k, v)] + rest;
    assert(all[0] == (k, v));
    assert(all.skip(1) =~= rest);
    let entry = entry_text(k, v);
    let tail = params(rest);
    if k.len() > 0 {
        if tail.len() == 0 {
            assert(params(all) =~= entry + Seq::<char>::empty());
        } else {
            assert(params(all) =~= entry + (seq![';'] + tail));
        }
    }
}

/// What was put into a list is found there: a key gives the value of the first pair that has it,
/// and one that no pair has gives none.
pub proof fn law_first_pair_is_found(ps: Seq<(Seq<char>, Seq<char>)>, k: Seq<char>)
    requires
        forall|j: int|
            0 <= j < ps.len() ==> (#[trigger] ps[j]).0.len() > 0 && !ps[j].0.contains(';')
                && !ps[j].0.contains('=') && !ps[j].1.contains(';'),
    ensures
        forall|i: int|
            #![trigger ps[i]]
            0 <= i < ps.len() && ps[i].0 == k && (forall|j: int|
                0 <= j < i ==> (#[trigger] ps[j]).0 != k) ==> param(params(ps), k) == Some(
                ps[i].1,
            ),
        (forall|j: int| 0 <= j < ps.len() ==> (#[trigger] ps[j]).0 != k) ==> param(params(ps), k)
            is None,
{
    assert(separable(ps));
    law_params_are_found(ps, k);
    assert forall|i: int|
        #![trigger ps[i]]
        0 <= i < ps.len() && ps[i].0 == k && (forall|j: int|
            0 <= j < i ==> (#[trigger] ps[j]).0 != k) implies first_value(ps, k) == Some(
        ps[i].1,
    ) by {
        lemma_first_value(ps, k, i);
    }
    if forall|j: int| 0 <= j < ps.len() ==> (#[trigger] ps[j]).0 != k {
        lemma_no_value(ps, k);
    }
}

proof fn lemma_first_value(ps: Seq<(Seq<char>, Seq<char>)>, k: Seq<char>, i: int)
    requires
        0 <= i < ps.len(),
        ps[i].0 == k,
        forall|j: int| 0 <= j < i ==> (#[trigger] ps[j]).0 != k,
    ensures
        first_value(ps, k) == Some(ps[i].1),
    decreases ps.len(),
{
    if i > 0 {
        let rest = ps.skip(1);
        assert forall|j: int| 0 <= j < i - 1 implies (#[trigger] rest[j]).0 != k by {
            assert(rest[j] == ps[j + 1]);
        }
        assert(rest[i - 1] == ps[i]);
        assert(ps[0].0 != k);
        lemma_first_value(rest, k, i - 1);
    }
}

proof fn lemma_no_value(ps: Seq<(Seq<char>, Seq<char>)>, k: Seq<char>)
    requires
        forall|j: int| 0 <= j < ps.len() ==> (#[trigger] ps[j]).0 != k,
    ensures
        first_value(ps, k) is None,
    decreases ps.len(),
{
    if ps.len() > 0 {
        let rest = ps.skip(1);
        assert forall|j: int| 0 <= j < rest.len() implies (#[trigger] rest[j]).0 != k by {
            assert(rest[j] == ps[j + 1]);
        }
        assert(ps[0].0 != k);
        lemma_no_value(rest, k);
    }
}

/// Pairs of texts are meant as they are written, each key with its value.
pub proof fn law_pairs_are_meant_as_written(ps: Seq<(&str, &str)>)
    ensures
        texts(ps).len() == ps.len(),
        forall|i: int| 0 <= i < ps.len() ==> #[trigger] texts(ps)[i] == (ps[i].0@, ps[i].1@),
{
}

} // verus!
